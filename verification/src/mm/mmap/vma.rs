//! Sequencers on single mappings (merge, split, link, expand, copy).
//!
//! Stores into the range tree, reverse maps and policies are helpers.

use vstd::prelude::*;
use crate::error::EINVAL;
use crate::mm::step;
use crate::mm::step::{Event, Step};

verus! {

/// No merge.
pub const VMERGE_NONE: i32 = 0;

/// Adjacent mapping selected; expand it.
pub const VMERGE_EXPAND: i32 = 1;

/// The helpers of [`rust_vmerge_dispatch`].
#[derive(Clone, Copy, PartialEq, Eq, Structural, Debug)]
pub enum VmergeCall {
    Classify,
    Expand,
}

/// What [`rust_vmerge_dispatch`] does at an event: the flag goes from `before` to
/// `after`, and `r` is next.
pub open spec fn vmerge_runs(
    vmg: u64,
    handled_ptr: u64,
    before: i32,
    after: i32,
    event: Event<()>,
    r: Step<VmergeCall, u64>,
) -> bool {
    match event {
        Event::Enter => step::begun(
            vmg != 0 && handled_ptr != 0,
            VmergeCall::Classify,
            0u64,
            before,
            after,
            r,
        ),
        Event::Classified { kind, .. } => after == 1 && r == if kind == VMERGE_NONE {
            Step::Return(0u64)
        } else if kind == VMERGE_EXPAND {
            Step::Tail(VmergeCall::Expand)
        } else {
            Step::Reject(0u64)
        },
    }
}

/// Sequences `vma_merge_new_range`: find an adjacent mapping, then expand it.
pub fn rust_vmerge_dispatch(
    vmg: u64,
    handled_ptr: u64,
    handled: &mut i32,
    event: Event<()>,
) -> (r: Step<VmergeCall, u64>)
    ensures
        vmerge_runs(vmg, handled_ptr, *old(handled), *final(handled), event, r),
{
    match event {
        Event::Enter => {
            if vmg == 0 || handled_ptr == 0 {
                return Step::Return(0u64);
            }
            *handled = 0;
            Step::Call(VmergeCall::Classify)
        },
        Event::Classified { kind, .. } => {
            *handled = 1;
            if kind == VMERGE_NONE {
                Step::Return(0u64)
            } else if kind == VMERGE_EXPAND {
                Step::Tail(VmergeCall::Expand)
            } else {
                Step::Reject(0u64)
            }
        },
    }
}

/// [`rust_vmerge_dispatch`] fails at once on a null pointer and on nothing else. Once
/// `Classify` has answered it goes by the kind: `VMERGE_NONE` ends it, `VMERGE_EXPAND`
/// runs `Expand`, and any other is refused.
pub proof fn law_vmerge(
    vmg: u64,
    handled_ptr: u64,
    before: i32,
    after: i32,
    event: Event<()>,
    r: Step<VmergeCall, u64>,
)
    requires
        vmerge_runs(vmg, handled_ptr, before, after, event, r),
    ensures
        match event {
            Event::Enter => step::enters(
                set![vmg, handled_ptr],
                before,
                after,
                VmergeCall::Classify,
                0u64,
                r,
            ),
            Event::Classified { kind, .. } => after == 1 && step::sorted(
                kind,
                map![
                    VMERGE_NONE => Step::Return(0u64),
                    VMERGE_EXPAND => Step::Tail(VmergeCall::Expand),
                ],
                Step::Reject(0u64),
                r,
            ),
        },
{
}

/// No merge.
pub const VEX_NONE: i32 = 0;

/// Merge the previous and next mapping around the middle.
pub const VEX_BOTH: i32 = 1;

/// Merge the previous mapping into the middle.
pub const VEX_LEFT: i32 = 2;

/// Merge the next mapping into the middle.
pub const VEX_RIGHT: i32 = 3;

/// The helpers of [`rust_vex_dispatch`].
#[derive(Clone, Copy, PartialEq, Eq, Structural, Debug)]
pub enum VexCall {
    Classify,
    Both,
    Left,
    Right,
    Commit,
    Abort,
}

/// What happened since the last step of [`rust_vex_dispatch`].
#[derive(Clone, Copy, PartialEq, Eq, Structural, Debug)]
pub enum VexEvent {
    Enter,
    Classified { kind: i32 },
    /// The clone for the merge has run.
    Merged { err: i32 },
    /// The merge was committed, to this mapping or 0.
    Committed { vma: u64 },
}

/// What follows an event of [`rust_vex_dispatch`] once it is entered.
pub open spec fn vex_next(event: VexEvent) -> Step<VexCall, u64> {
    match event {
        VexEvent::Enter => Step::Call(VexCall::Classify),
        VexEvent::Classified { kind } => if kind == VEX_NONE {
            Step::Return(0)
        } else if kind == VEX_BOTH {
            Step::Call(VexCall::Both)
        } else if kind == VEX_LEFT {
            Step::Call(VexCall::Left)
        } else if kind == VEX_RIGHT {
            Step::Call(VexCall::Right)
        } else {
            Step::Abort(VexCall::Abort, 0)
        },
        VexEvent::Merged { err } => if err != 0 {
            Step::Finish(VexCall::Abort, 0)
        } else {
            Step::Call(VexCall::Commit)
        },
        VexEvent::Committed { vma } => if vma == 0 {
            Step::Finish(VexCall::Abort, 0)
        } else {
            Step::Return(vma)
        },
    }
}

/// What [`rust_vex_dispatch`] does at an event: the flag goes from `before` to
/// `after`, and `r` is next.
pub open spec fn vex_runs(
    s: u64,
    handled_ptr: u64,
    before: i32,
    after: i32,
    event: VexEvent,
    r: Step<VexCall, u64>,
) -> bool {
    match event {
        VexEvent::Enter => step::begun(
            s != 0 && handled_ptr != 0,
            VexCall::Classify,
            0,
            before,
            after,
            r,
        ),
        VexEvent::Classified { .. } => after == 1 && r == vex_next(event),
        _ => after == before && r == vex_next(event),
    }
}

/// Sequences `vma_merge_existing_range`: clone for the merge, then commit. An
/// unknown kind or a failure aborts.
pub fn rust_vex_dispatch(s: u64, handled_ptr: u64, handled: &mut i32, event: VexEvent) -> (r: Step<
    VexCall,
    u64,
>)
    ensures
        vex_runs(s, handled_ptr, *old(handled), *final(handled), event, r),
{
    match event {
        VexEvent::Enter => {
            if s == 0 || handled_ptr == 0 {
                return Step::Return(0);
            }
            *handled = 0;
            Step::Call(VexCall::Classify)
        },
        VexEvent::Classified { kind } => {
            *handled = 1;
            if kind == VEX_NONE {
                Step::Return(0)
            } else if kind == VEX_BOTH {
                Step::Call(VexCall::Both)
            } else if kind == VEX_LEFT {
                Step::Call(VexCall::Left)
            } else if kind == VEX_RIGHT {
                Step::Call(VexCall::Right)
            } else {
                Step::Abort(VexCall::Abort, 0)
            }
        },
        VexEvent::Merged { err } => {
            if err != 0 {
                Step::Finish(VexCall::Abort, 0)
            } else {
                Step::Call(VexCall::Commit)
            }
        },
        VexEvent::Committed { vma } => {
            if vma == 0 {
                Step::Finish(VexCall::Abort, 0)
            } else {
                Step::Return(vma)
            }
        },
    }
}

/// [`rust_vex_dispatch`] fails at once on a null pointer and on nothing else. Each kind
/// of merge runs its own clone. A clone is committed exactly if it did not fail, and
/// the mapping that the commit gave is the result.
pub proof fn law_vex(
    s: u64,
    handled_ptr: u64,
    before: i32,
    after: i32,
    event: VexEvent,
    r: Step<VexCall, u64>,
)
    requires
        vex_runs(s, handled_ptr, before, after, event, r),
    ensures
        match event {
            VexEvent::Enter => step::enters(
                set![s, handled_ptr],
                before,
                after,
                VexCall::Classify,
                0u64,
                r,
            ),
            VexEvent::Classified { kind } => after == 1 && step::sorted(
                kind,
                map![
                    VEX_NONE => Step::Return(0u64),
                    VEX_BOTH => Step::Call(VexCall::Both),
                    VEX_LEFT => Step::Call(VexCall::Left),
                    VEX_RIGHT => Step::Call(VexCall::Right),
                ],
                Step::Abort(VexCall::Abort, 0u64),
                r,
            ),
            VexEvent::Merged { err } => {
                &&& after == before
                &&& r is Call <==> err == 0
                &&& r is Finish <==> err != 0
                &&& r matches Step::Call(call) ==> call == VexCall::Commit
                &&& r matches Step::Finish(call, result) ==> call == VexCall::Abort && result == 0
            },
            VexEvent::Committed { vma } => {
                &&& after == before
                &&& r is Return <==> vma != 0
                &&& r is Finish <==> vma == 0
                &&& r matches Step::Return(result) ==> result == vma
                &&& r matches Step::Finish(call, result) ==> call == VexCall::Abort && result == 0
            },
        },
{
}

/// A merge is either returned or aborted: whatever the helpers give, a sequence
/// ends with a mapping, with nothing to undo, or with the abort.
pub proof fn law_vex_ends(event: VexEvent)
    requires
        !(event is Enter),
    ensures
        match vex_next(event) {
            Step::Return(vma) => vma != 0 || event == (VexEvent::Classified { kind: VEX_NONE }),
            Step::Finish(call, vma) => call == VexCall::Abort && vma == 0,
            Step::Abort(call, vma) => call == VexCall::Abort && vma == 0,
            Step::Call(call) => call != VexCall::Abort && call != VexCall::Classify,
            _ => false,
        },
{
}

/// Finished; the helper gave the result.
pub const VEXP_DONE: i32 = 0;

/// Cloned; commit the merge.
pub const VEXP_COMMIT: i32 = 1;

/// The helpers of [`rust_vexp_dispatch`].
#[derive(Clone, Copy, PartialEq, Eq, Structural, Debug)]
pub enum VexpCall {
    Classify,
    Commit,
    Abort,
}

/// What happened since the last step of [`rust_vexp_dispatch`].
#[derive(Clone, Copy, PartialEq, Eq, Structural, Debug)]
pub enum VexpEvent {
    Enter,
    Classified { kind: i32, out: i32 },
    Committed { err: i32 },
}

/// What [`rust_vexp_dispatch`] does at an event: the flag goes from `before` to
/// `after`, and `r` is next.
pub open spec fn vexp_runs(
    s: u64,
    handled_ptr: u64,
    before: i32,
    after: i32,
    event: VexpEvent,
    r: Step<VexpCall, i32>,
) -> bool {
    match event {
        VexpEvent::Enter => step::begun(
            s != 0 && handled_ptr != 0,
            VexpCall::Classify,
            EINVAL,
            before,
            after,
            r,
        ),
        VexpEvent::Classified { kind, out } => after == 1 && r == if kind
            == VEXP_DONE {
            Step::Return(out)
        } else if kind == VEXP_COMMIT {
            Step::Call(VexpCall::Commit)
        } else {
            Step::Abort(VexpCall::Abort, EINVAL)
        },
        VexpEvent::Committed { err } => after == before && r == if err != 0 {
            Step::Finish(VexpCall::Abort, err)
        } else {
            Step::Return(0)
        },
    }
}

/// Sequences `vma_expand`: clone, then commit. An unknown kind or a failed commit
/// undoes a partial clone.
pub fn rust_vexp_dispatch(s: u64, handled_ptr: u64, handled: &mut i32, event: VexpEvent) -> (r:
    Step<VexpCall, i32>)
    ensures
        vexp_runs(s, handled_ptr, *old(handled), *final(handled), event, r),
{
    match event {
        VexpEvent::Enter => {
            if s == 0 || handled_ptr == 0 {
                return Step::Return(EINVAL);
            }
            *handled = 0;
            Step::Call(VexpCall::Classify)
        },
        VexpEvent::Classified { kind, out } => {
            *handled = 1;
            if kind == VEXP_DONE {
                Step::Return(out)
            } else if kind == VEXP_COMMIT {
                Step::Call(VexpCall::Commit)
            } else {
                Step::Abort(VexpCall::Abort, EINVAL)
            }
        },
        VexpEvent::Committed { err } => {
            if err != 0 {
                Step::Finish(VexpCall::Abort, err)
            } else {
                Step::Return(err)
            }
        },
    }
}

/// [`rust_vexp_dispatch`] fails at once on a null pointer and on nothing else. A clone
/// is committed, and a commit that failed is undone and its error returned; one that
/// did not fail gives 0.
pub proof fn law_vexp(
    s: u64,
    handled_ptr: u64,
    before: i32,
    after: i32,
    event: VexpEvent,
    r: Step<VexpCall, i32>,
)
    requires
        vexp_runs(s, handled_ptr, before, after, event, r),
    ensures
        match event {
            VexpEvent::Enter => step::enters(
                set![s, handled_ptr],
                before,
                after,
                VexpCall::Classify,
                EINVAL,
                r,
            ),
            VexpEvent::Classified { kind, out } => after == 1 && step::sorted(
                kind,
                map![
                    VEXP_DONE => Step::Return(out),
                    VEXP_COMMIT => Step::Call(VexpCall::Commit),
                ],
                Step::Abort(VexpCall::Abort, EINVAL),
                r,
            ),
            VexpEvent::Committed { err } => {
                &&& after == before
                &&& r is Return <==> err == 0
                &&& r is Finish <==> err != 0
                &&& r matches Step::Return(result) ==> result == 0
                &&& r matches Step::Finish(call, result) ==> call == VexpCall::Abort && result
                    == err
            },
        },
{
}

/// No mapping.
pub const ESTK_DONE: i32 = 0;

/// Found or grown; downgrade the lock.
pub const ESTK_DOWNGRADE: i32 = 1;

/// The helpers of [`rust_estk_dispatch`].
#[derive(Clone, Copy, PartialEq, Eq, Structural, Debug)]
pub enum EstkCall {
    Classify,
    Downgrade,
    Abort,
}

/// What [`rust_estk_dispatch`] does at an event: the flag goes from `before` to
/// `after`, and `r` is next.
pub open spec fn estk_runs(
    s: u64,
    handled_ptr: u64,
    before: i32,
    after: i32,
    event: Event<()>,
    r: Step<EstkCall, u64>,
) -> bool {
    match event {
        Event::Enter => step::begun(
            s != 0 && handled_ptr != 0,
            EstkCall::Classify,
            0u64,
            before,
            after,
            r,
        ),
        Event::Classified { kind, .. } => after == 1 && r == if kind == ESTK_DONE {
            Step::Return(0u64)
        } else if kind == ESTK_DOWNGRADE {
            Step::Tail(EstkCall::Downgrade)
        } else {
            Step::Abort(EstkCall::Abort, 0u64)
        },
    }
}

/// Sequences `expand_stack`: take the write lock and grow, then downgrade. An unknown
/// kind drops a leftover lock.
pub fn rust_estk_dispatch(
    s: u64,
    handled_ptr: u64,
    handled: &mut i32,
    event: Event<()>,
) -> (r: Step<EstkCall, u64>)
    ensures
        estk_runs(s, handled_ptr, *old(handled), *final(handled), event, r),
{
    match event {
        Event::Enter => {
            if s == 0 || handled_ptr == 0 {
                return Step::Return(0u64);
            }
            *handled = 0;
            Step::Call(EstkCall::Classify)
        },
        Event::Classified { kind, .. } => {
            *handled = 1;
            if kind == ESTK_DONE {
                Step::Return(0u64)
            } else if kind == ESTK_DOWNGRADE {
                Step::Tail(EstkCall::Downgrade)
            } else {
                Step::Abort(EstkCall::Abort, 0u64)
            }
        },
    }
}

/// [`rust_estk_dispatch`] fails at once on a null pointer and on nothing else. Once
/// `Classify` has answered it goes by the kind: `ESTK_DONE` ends it, `ESTK_DOWNGRADE`
/// runs `Downgrade`, and any other is refused and cleaned up by `Abort`.
pub proof fn law_estk(
    s: u64,
    handled_ptr: u64,
    before: i32,
    after: i32,
    event: Event<()>,
    r: Step<EstkCall, u64>,
)
    requires
        estk_runs(s, handled_ptr, before, after, event, r),
    ensures
        match event {
            Event::Enter => step::enters(
                set![s, handled_ptr],
                before,
                after,
                EstkCall::Classify,
                0u64,
                r,
            ),
            Event::Classified { kind, .. } => after == 1 && step::sorted(
                kind,
                map![
                    ESTK_DONE => Step::Return(0u64),
                    ESTK_DOWNGRADE => Step::Tail(EstkCall::Downgrade),
                ],
                Step::Abort(EstkCall::Abort, 0u64),
                r,
            ),
        },
{
}

/// Finished; the helper gave the result.
pub const VMOD_DONE: i32 = 0;

/// Merge failed; split.
pub const VMOD_SPLIT: i32 = 1;

/// The helpers of [`rust_vmod_dispatch`].
#[derive(Clone, Copy, PartialEq, Eq, Structural, Debug)]
pub enum VmodCall {
    Classify,
    Split,
}

/// What [`rust_vmod_dispatch`] does at an event: the flag goes from `before` to
/// `after`, and `r` is next.
pub open spec fn vmod_runs(
    s: u64,
    handled_ptr: u64,
    before: i32,
    after: i32,
    event: Event<u64>,
    r: Step<VmodCall, u64>,
) -> bool {
    match event {
        Event::Enter => step::begun(
            s != 0 && handled_ptr != 0,
            VmodCall::Classify,
            0u64,
            before,
            after,
            r,
        ),
        Event::Classified { kind, out } => after == 1 && r == if kind == VMOD_DONE {
            Step::Return(out)
        } else if kind == VMOD_SPLIT {
            Step::Tail(VmodCall::Split)
        } else {
            Step::Reject(0u64)
        },
    }
}

/// Sequences `vma_modify`: try a merge, then split.
pub fn rust_vmod_dispatch(
    s: u64,
    handled_ptr: u64,
    handled: &mut i32,
    event: Event<u64>,
) -> (r: Step<VmodCall, u64>)
    ensures
        vmod_runs(s, handled_ptr, *old(handled), *final(handled), event, r),
{
    match event {
        Event::Enter => {
            if s == 0 || handled_ptr == 0 {
                return Step::Return(0u64);
            }
            *handled = 0;
            Step::Call(VmodCall::Classify)
        },
        Event::Classified { kind, out } => {
            *handled = 1;
            if kind == VMOD_DONE {
                Step::Return(out)
            } else if kind == VMOD_SPLIT {
                Step::Tail(VmodCall::Split)
            } else {
                Step::Reject(0u64)
            }
        },
    }
}

/// [`rust_vmod_dispatch`] fails at once on a null pointer and on nothing else. Once
/// `Classify` has answered it goes by the kind: `VMOD_DONE` hands back what the helper
/// gave, `VMOD_SPLIT` runs `Split`, and any other is refused.
pub proof fn law_vmod(
    s: u64,
    handled_ptr: u64,
    before: i32,
    after: i32,
    event: Event<u64>,
    r: Step<VmodCall, u64>,
)
    requires
        vmod_runs(s, handled_ptr, before, after, event, r),
    ensures
        match event {
            Event::Enter => step::enters(
                set![s, handled_ptr],
                before,
                after,
                VmodCall::Classify,
                0u64,
                r,
            ),
            Event::Classified { kind, out } => after == 1 && step::sorted(
                kind,
                map![
                    VMOD_DONE => Step::Return(out),
                    VMOD_SPLIT => Step::Tail(VmodCall::Split),
                ],
                Step::Reject(0u64),
                r,
            ),
        },
{
}

/// Finished; the helper gave the result.
pub const VSH_DONE: i32 = 0;

/// Memory reserved; shrink.
pub const VSH_APPLY: i32 = 1;

/// The helpers of [`rust_vsh_dispatch`].
#[derive(Clone, Copy, PartialEq, Eq, Structural, Debug)]
pub enum VshCall {
    Classify,
    Apply,
}

/// What [`rust_vsh_dispatch`] does at an event: the flag goes from `before` to
/// `after`, and `r` is next.
pub open spec fn vsh_runs(
    s: u64,
    handled_ptr: u64,
    before: i32,
    after: i32,
    event: Event<i32>,
    r: Step<VshCall, i32>,
) -> bool {
    match event {
        Event::Enter => step::begun(
            s != 0 && handled_ptr != 0,
            VshCall::Classify,
            EINVAL,
            before,
            after,
            r,
        ),
        Event::Classified { kind, out } => after == 1 && r == if kind == VSH_DONE {
            Step::Return(out)
        } else if kind == VSH_APPLY {
            Step::Tail(VshCall::Apply)
        } else {
            Step::Reject(EINVAL)
        },
    }
}

/// Sequences `vma_shrink`: reserve memory, then shrink.
pub fn rust_vsh_dispatch(
    s: u64,
    handled_ptr: u64,
    handled: &mut i32,
    event: Event<i32>,
) -> (r: Step<VshCall, i32>)
    ensures
        vsh_runs(s, handled_ptr, *old(handled), *final(handled), event, r),
{
    match event {
        Event::Enter => {
            if s == 0 || handled_ptr == 0 {
                return Step::Return(EINVAL);
            }
            *handled = 0;
            Step::Call(VshCall::Classify)
        },
        Event::Classified { kind, out } => {
            *handled = 1;
            if kind == VSH_DONE {
                Step::Return(out)
            } else if kind == VSH_APPLY {
                Step::Tail(VshCall::Apply)
            } else {
                Step::Reject(EINVAL)
            }
        },
    }
}

/// [`rust_vsh_dispatch`] fails at once on a null pointer and on nothing else. Once
/// `Classify` has answered it goes by the kind: `VSH_DONE` hands back what the helper
/// gave, `VSH_APPLY` runs `Apply`, and any other is refused.
pub proof fn law_vsh(
    s: u64,
    handled_ptr: u64,
    before: i32,
    after: i32,
    event: Event<i32>,
    r: Step<VshCall, i32>,
)
    requires
        vsh_runs(s, handled_ptr, before, after, event, r),
    ensures
        match event {
            Event::Enter => step::enters(
                set![s, handled_ptr],
                before,
                after,
                VshCall::Classify,
                EINVAL,
                r,
            ),
            Event::Classified { kind, out } => after == 1 && step::sorted(
                kind,
                map![
                    VSH_DONE => Step::Return(out),
                    VSH_APPLY => Step::Tail(VshCall::Apply),
                ],
                Step::Reject(EINVAL),
                r,
            ),
        },
{
}

/// Finished; the helper gave the result.
pub const CMERGE_DONE: i32 = 0;

/// Memory reserved; store.
pub const CMERGE_APPLY: i32 = 1;

/// The helpers of [`rust_cmerge_dispatch`].
#[derive(Clone, Copy, PartialEq, Eq, Structural, Debug)]
pub enum CmergeCall {
    Classify,
    Apply,
}

/// What [`rust_cmerge_dispatch`] does at an event: the flag goes from `before` to
/// `after`, and `r` is next.
pub open spec fn cmerge_runs(
    s: u64,
    handled_ptr: u64,
    before: i32,
    after: i32,
    event: Event<i32>,
    r: Step<CmergeCall, i32>,
) -> bool {
    match event {
        Event::Enter => step::begun(
            s != 0 && handled_ptr != 0,
            CmergeCall::Classify,
            EINVAL,
            before,
            after,
            r,
        ),
        Event::Classified { kind, out } => after == 1 && r == if kind == CMERGE_DONE {
            Step::Return(out)
        } else if kind == CMERGE_APPLY {
            Step::Tail(CmergeCall::Apply)
        } else {
            Step::Reject(EINVAL)
        },
    }
}

/// Sequences `commit_merge`: reserve memory, then store.
pub fn rust_cmerge_dispatch(
    s: u64,
    handled_ptr: u64,
    handled: &mut i32,
    event: Event<i32>,
) -> (r: Step<CmergeCall, i32>)
    ensures
        cmerge_runs(s, handled_ptr, *old(handled), *final(handled), event, r),
{
    match event {
        Event::Enter => {
            if s == 0 || handled_ptr == 0 {
                return Step::Return(EINVAL);
            }
            *handled = 0;
            Step::Call(CmergeCall::Classify)
        },
        Event::Classified { kind, out } => {
            *handled = 1;
            if kind == CMERGE_DONE {
                Step::Return(out)
            } else if kind == CMERGE_APPLY {
                Step::Tail(CmergeCall::Apply)
            } else {
                Step::Reject(EINVAL)
            }
        },
    }
}

/// [`rust_cmerge_dispatch`] fails at once on a null pointer and on nothing else. Once
/// `Classify` has answered it goes by the kind: `CMERGE_DONE` hands back what the
/// helper gave, `CMERGE_APPLY` runs `Apply`, and any other is refused.
pub proof fn law_cmerge(
    s: u64,
    handled_ptr: u64,
    before: i32,
    after: i32,
    event: Event<i32>,
    r: Step<CmergeCall, i32>,
)
    requires
        cmerge_runs(s, handled_ptr, before, after, event, r),
    ensures
        match event {
            Event::Enter => step::enters(
                set![s, handled_ptr],
                before,
                after,
                CmergeCall::Classify,
                EINVAL,
                r,
            ),
            Event::Classified { kind, out } => after == 1 && step::sorted(
                kind,
                map![
                    CMERGE_DONE => Step::Return(out),
                    CMERGE_APPLY => Step::Tail(CmergeCall::Apply),
                ],
                Step::Reject(EINVAL),
                r,
            ),
        },
{
}

/// Finished; the helper gave the result.
pub const EXDN_DONE: i32 = 0;

/// Memory reserved; grow.
pub const EXDN_APPLY: i32 = 1;

/// The helpers of [`rust_exdn_dispatch`].
#[derive(Clone, Copy, PartialEq, Eq, Structural, Debug)]
pub enum ExdnCall {
    Classify,
    Apply,
    Abort,
}

/// What [`rust_exdn_dispatch`] does at an event: the flag goes from `before` to
/// `after`, and `r` is next.
pub open spec fn exdn_runs(
    s: u64,
    handled_ptr: u64,
    before: i32,
    after: i32,
    event: Event<i32>,
    r: Step<ExdnCall, i32>,
) -> bool {
    match event {
        Event::Enter => step::begun(
            s != 0 && handled_ptr != 0,
            ExdnCall::Classify,
            EINVAL,
            before,
            after,
            r,
        ),
        Event::Classified { kind, out } => after == 1 && r == if kind == EXDN_DONE {
            Step::Return(out)
        } else if kind == EXDN_APPLY {
            Step::Tail(ExdnCall::Apply)
        } else {
            Step::Abort(ExdnCall::Abort, EINVAL)
        },
    }
}

/// Sequences `expand_downwards`: reserve memory, then grow. An unknown kind frees a
/// leftover reservation.
pub fn rust_exdn_dispatch(
    s: u64,
    handled_ptr: u64,
    handled: &mut i32,
    event: Event<i32>,
) -> (r: Step<ExdnCall, i32>)
    ensures
        exdn_runs(s, handled_ptr, *old(handled), *final(handled), event, r),
{
    match event {
        Event::Enter => {
            if s == 0 || handled_ptr == 0 {
                return Step::Return(EINVAL);
            }
            *handled = 0;
            Step::Call(ExdnCall::Classify)
        },
        Event::Classified { kind, out } => {
            *handled = 1;
            if kind == EXDN_DONE {
                Step::Return(out)
            } else if kind == EXDN_APPLY {
                Step::Tail(ExdnCall::Apply)
            } else {
                Step::Abort(ExdnCall::Abort, EINVAL)
            }
        },
    }
}

/// [`rust_exdn_dispatch`] fails at once on a null pointer and on nothing else. Once
/// `Classify` has answered it goes by the kind: `EXDN_DONE` hands back what the helper
/// gave, `EXDN_APPLY` runs `Apply`, and any other is refused and cleaned up by `Abort`.
pub proof fn law_exdn(
    s: u64,
    handled_ptr: u64,
    before: i32,
    after: i32,
    event: Event<i32>,
    r: Step<ExdnCall, i32>,
)
    requires
        exdn_runs(s, handled_ptr, before, after, event, r),
    ensures
        match event {
            Event::Enter => step::enters(
                set![s, handled_ptr],
                before,
                after,
                ExdnCall::Classify,
                EINVAL,
                r,
            ),
            Event::Classified { kind, out } => after == 1 && step::sorted(
                kind,
                map![
                    EXDN_DONE => Step::Return(out),
                    EXDN_APPLY => Step::Tail(ExdnCall::Apply),
                ],
                Step::Abort(ExdnCall::Abort, EINVAL),
                r,
            ),
        },
{
}

/// Finished; the helper gave the result.
pub const IVS_DONE: i32 = 0;

/// Checks passed; link.
pub const IVS_LINK: i32 = 1;

/// The helpers of [`rust_ivs_dispatch`].
#[derive(Clone, Copy, PartialEq, Eq, Structural, Debug)]
pub enum IvsCall {
    Classify,
    Link,
    Abort,
}

/// What [`rust_ivs_dispatch`] does at an event: the flag goes from `before` to
/// `after`, and `r` is next.
pub open spec fn ivs_runs(
    s: u64,
    handled_ptr: u64,
    before: i32,
    after: i32,
    event: Event<i32>,
    r: Step<IvsCall, i32>,
) -> bool {
    match event {
        Event::Enter => step::begun(
            s != 0 && handled_ptr != 0,
            IvsCall::Classify,
            EINVAL,
            before,
            after,
            r,
        ),
        Event::Classified { kind, out } => after == 1 && r == if kind == IVS_DONE {
            Step::Return(out)
        } else if kind == IVS_LINK {
            Step::Tail(IvsCall::Link)
        } else {
            Step::Abort(IvsCall::Abort, EINVAL)
        },
    }
}

/// Sequences `insert_vm_struct`: account, then link. An unknown kind takes back a
/// leftover charge.
pub fn rust_ivs_dispatch(
    s: u64,
    handled_ptr: u64,
    handled: &mut i32,
    event: Event<i32>,
) -> (r: Step<IvsCall, i32>)
    ensures
        ivs_runs(s, handled_ptr, *old(handled), *final(handled), event, r),
{
    match event {
        Event::Enter => {
            if s == 0 || handled_ptr == 0 {
                return Step::Return(EINVAL);
            }
            *handled = 0;
            Step::Call(IvsCall::Classify)
        },
        Event::Classified { kind, out } => {
            *handled = 1;
            if kind == IVS_DONE {
                Step::Return(out)
            } else if kind == IVS_LINK {
                Step::Tail(IvsCall::Link)
            } else {
                Step::Abort(IvsCall::Abort, EINVAL)
            }
        },
    }
}

/// [`rust_ivs_dispatch`] fails at once on a null pointer and on nothing else. Once
/// `Classify` has answered it goes by the kind: `IVS_DONE` hands back what the helper
/// gave, `IVS_LINK` runs `Link`, and any other is refused and cleaned up by `Abort`.
pub proof fn law_ivs(
    s: u64,
    handled_ptr: u64,
    before: i32,
    after: i32,
    event: Event<i32>,
    r: Step<IvsCall, i32>,
)
    requires
        ivs_runs(s, handled_ptr, before, after, event, r),
    ensures
        match event {
            Event::Enter => step::enters(
                set![s, handled_ptr],
                before,
                after,
                IvsCall::Classify,
                EINVAL,
                r,
            ),
            Event::Classified { kind, out } => after == 1 && step::sorted(
                kind,
                map![
                    IVS_DONE => Step::Return(out),
                    IVS_LINK => Step::Tail(IvsCall::Link),
                ],
                Step::Abort(IvsCall::Abort, EINVAL),
                r,
            ),
        },
{
}

/// Finished; the helper gave the result.
pub const SVMA_DONE: i32 = 0;

/// Duplicated and memory reserved; complete.
pub const SVMA_APPLY: i32 = 1;

/// The helpers of [`rust_svma_dispatch`].
#[derive(Clone, Copy, PartialEq, Eq, Structural, Debug)]
pub enum SvmaCall {
    Classify,
    Apply,
    Abort,
}

/// What [`rust_svma_dispatch`] does at an event: the flag goes from `before` to
/// `after`, and `r` is next.
pub open spec fn svma_runs(
    s: u64,
    handled_ptr: u64,
    before: i32,
    after: i32,
    event: Event<i32>,
    r: Step<SvmaCall, i32>,
) -> bool {
    match event {
        Event::Enter => step::begun(
            s != 0 && handled_ptr != 0,
            SvmaCall::Classify,
            EINVAL,
            before,
            after,
            r,
        ),
        Event::Classified { kind, out } => after == 1 && r == if kind == SVMA_DONE {
            Step::Return(out)
        } else if kind == SVMA_APPLY {
            Step::Tail(SvmaCall::Apply)
        } else {
            Step::Abort(SvmaCall::Abort, EINVAL)
        },
    }
}

/// Sequences `__split_vma`: duplicate and reserve memory, then complete. An unknown
/// kind frees both.
pub fn rust_svma_dispatch(
    s: u64,
    handled_ptr: u64,
    handled: &mut i32,
    event: Event<i32>,
) -> (r: Step<SvmaCall, i32>)
    ensures
        svma_runs(s, handled_ptr, *old(handled), *final(handled), event, r),
{
    match event {
        Event::Enter => {
            if s == 0 || handled_ptr == 0 {
                return Step::Return(EINVAL);
            }
            *handled = 0;
            Step::Call(SvmaCall::Classify)
        },
        Event::Classified { kind, out } => {
            *handled = 1;
            if kind == SVMA_DONE {
                Step::Return(out)
            } else if kind == SVMA_APPLY {
                Step::Tail(SvmaCall::Apply)
            } else {
                Step::Abort(SvmaCall::Abort, EINVAL)
            }
        },
    }
}

/// [`rust_svma_dispatch`] fails at once on a null pointer and on nothing else. Once
/// `Classify` has answered it goes by the kind: `SVMA_DONE` hands back what the helper
/// gave, `SVMA_APPLY` runs `Apply`, and any other is refused and cleaned up by `Abort`.
pub proof fn law_svma(
    s: u64,
    handled_ptr: u64,
    before: i32,
    after: i32,
    event: Event<i32>,
    r: Step<SvmaCall, i32>,
)
    requires
        svma_runs(s, handled_ptr, before, after, event, r),
    ensures
        match event {
            Event::Enter => step::enters(
                set![s, handled_ptr],
                before,
                after,
                SvmaCall::Classify,
                EINVAL,
                r,
            ),
            Event::Classified { kind, out } => after == 1 && step::sorted(
                kind,
                map![
                    SVMA_DONE => Step::Return(out),
                    SVMA_APPLY => Step::Tail(SvmaCall::Apply),
                ],
                Step::Abort(SvmaCall::Abort, EINVAL),
                r,
            ),
        },
{
}

/// Finished; the helper gave the result.
pub const VLINK_DONE: i32 = 0;

/// Memory reserved; store and link the file.
pub const VLINK_STORE: i32 = 1;

/// The helpers of [`rust_vlink_dispatch`].
#[derive(Clone, Copy, PartialEq, Eq, Structural, Debug)]
pub enum VlinkCall {
    Classify,
    Store,
    Abort,
}

/// What [`rust_vlink_dispatch`] does at an event: the flag goes from `before` to
/// `after`, and `r` is next.
pub open spec fn vlink_runs(
    s: u64,
    handled_ptr: u64,
    before: i32,
    after: i32,
    event: Event<i32>,
    r: Step<VlinkCall, i32>,
) -> bool {
    match event {
        Event::Enter => step::begun(
            s != 0 && handled_ptr != 0,
            VlinkCall::Classify,
            EINVAL,
            before,
            after,
            r,
        ),
        Event::Classified { kind, out } => after == 1 && r == if kind == VLINK_DONE {
            Step::Return(out)
        } else if kind == VLINK_STORE {
            Step::Tail(VlinkCall::Store)
        } else {
            Step::Abort(VlinkCall::Abort, EINVAL)
        },
    }
}

/// Sequences `vma_link`: reserve memory, then store. An unknown kind frees a leftover
/// reservation.
pub fn rust_vlink_dispatch(
    s: u64,
    handled_ptr: u64,
    handled: &mut i32,
    event: Event<i32>,
) -> (r: Step<VlinkCall, i32>)
    ensures
        vlink_runs(s, handled_ptr, *old(handled), *final(handled), event, r),
{
    match event {
        Event::Enter => {
            if s == 0 || handled_ptr == 0 {
                return Step::Return(EINVAL);
            }
            *handled = 0;
            Step::Call(VlinkCall::Classify)
        },
        Event::Classified { kind, out } => {
            *handled = 1;
            if kind == VLINK_DONE {
                Step::Return(out)
            } else if kind == VLINK_STORE {
                Step::Tail(VlinkCall::Store)
            } else {
                Step::Abort(VlinkCall::Abort, EINVAL)
            }
        },
    }
}

/// [`rust_vlink_dispatch`] fails at once on a null pointer and on nothing else. Once
/// `Classify` has answered it goes by the kind: `VLINK_DONE` hands back what the helper
/// gave, `VLINK_STORE` runs `Store`, and any other is refused and cleaned up by
/// `Abort`.
pub proof fn law_vlink(
    s: u64,
    handled_ptr: u64,
    before: i32,
    after: i32,
    event: Event<i32>,
    r: Step<VlinkCall, i32>,
)
    requires
        vlink_runs(s, handled_ptr, before, after, event, r),
    ensures
        match event {
            Event::Enter => step::enters(
                set![s, handled_ptr],
                before,
                after,
                VlinkCall::Classify,
                EINVAL,
                r,
            ),
            Event::Classified { kind, out } => after == 1 && step::sorted(
                kind,
                map![
                    VLINK_DONE => Step::Return(out),
                    VLINK_STORE => Step::Tail(VlinkCall::Store),
                ],
                Step::Abort(VlinkCall::Abort, EINVAL),
                r,
            ),
        },
{
}

/// Finished; the helper gave the result.
pub const CVMA_DONE: i32 = 0;

/// No merge; duplicate and link.
pub const CVMA_DUP: i32 = 1;

/// The helpers of [`rust_cvma_dispatch`].
#[derive(Clone, Copy, PartialEq, Eq, Structural, Debug)]
pub enum CvmaCall {
    Classify,
    Dup,
}

/// What [`rust_cvma_dispatch`] does at an event: the flag goes from `before` to
/// `after`, and `r` is next.
pub open spec fn cvma_runs(
    s: u64,
    handled_ptr: u64,
    before: i32,
    after: i32,
    event: Event<u64>,
    r: Step<CvmaCall, u64>,
) -> bool {
    match event {
        Event::Enter => step::begun(
            s != 0 && handled_ptr != 0,
            CvmaCall::Classify,
            0u64,
            before,
            after,
            r,
        ),
        Event::Classified { kind, out } => after == 1 && r == if kind == CVMA_DONE {
            Step::Return(out)
        } else if kind == CVMA_DUP {
            Step::Tail(CvmaCall::Dup)
        } else {
            Step::Reject(0u64)
        },
    }
}

/// Sequences `copy_vma`: try a merge, then duplicate.
pub fn rust_cvma_dispatch(
    s: u64,
    handled_ptr: u64,
    handled: &mut i32,
    event: Event<u64>,
) -> (r: Step<CvmaCall, u64>)
    ensures
        cvma_runs(s, handled_ptr, *old(handled), *final(handled), event, r),
{
    match event {
        Event::Enter => {
            if s == 0 || handled_ptr == 0 {
                return Step::Return(0u64);
            }
            *handled = 0;
            Step::Call(CvmaCall::Classify)
        },
        Event::Classified { kind, out } => {
            *handled = 1;
            if kind == CVMA_DONE {
                Step::Return(out)
            } else if kind == CVMA_DUP {
                Step::Tail(CvmaCall::Dup)
            } else {
                Step::Reject(0u64)
            }
        },
    }
}

/// [`rust_cvma_dispatch`] fails at once on a null pointer and on nothing else. Once
/// `Classify` has answered it goes by the kind: `CVMA_DONE` hands back what the helper
/// gave, `CVMA_DUP` runs `Dup`, and any other is refused.
pub proof fn law_cvma(
    s: u64,
    handled_ptr: u64,
    before: i32,
    after: i32,
    event: Event<u64>,
    r: Step<CvmaCall, u64>,
)
    requires
        cvma_runs(s, handled_ptr, before, after, event, r),
    ensures
        match event {
            Event::Enter => step::enters(
                set![s, handled_ptr],
                before,
                after,
                CvmaCall::Classify,
                0u64,
                r,
            ),
            Event::Classified { kind, out } => after == 1 && step::sorted(
                kind,
                map![
                    CVMA_DONE => Step::Return(out),
                    CVMA_DUP => Step::Tail(CvmaCall::Dup),
                ],
                Step::Reject(0u64),
                r,
            ),
        },
{
}

/// Finished; the helper gave the result.
pub const ASG_DONE: i32 = 0;

/// Limits passed; account.
pub const ASG_SEC: i32 = 1;

/// The helpers of [`rust_asg_dispatch`].
#[derive(Clone, Copy, PartialEq, Eq, Structural, Debug)]
pub enum AsgCall {
    Classify,
    Sec,
    Abort,
}

/// What [`rust_asg_dispatch`] does at an event: the flag goes from `before` to
/// `after`, and `r` is next.
pub open spec fn asg_runs(
    s: u64,
    handled_ptr: u64,
    before: i32,
    after: i32,
    event: Event<i32>,
    r: Step<AsgCall, i32>,
) -> bool {
    match event {
        Event::Enter => step::begun(
            s != 0 && handled_ptr != 0,
            AsgCall::Classify,
            EINVAL,
            before,
            after,
            r,
        ),
        Event::Classified { kind, out } => after == 1 && r == if kind == ASG_DONE {
            Step::Return(out)
        } else if kind == ASG_SEC {
            Step::Tail(AsgCall::Sec)
        } else {
            Step::Abort(AsgCall::Abort, EINVAL)
        },
    }
}

/// Sequences `acct_stack_growth`: check limits, then account.
pub fn rust_asg_dispatch(
    s: u64,
    handled_ptr: u64,
    handled: &mut i32,
    event: Event<i32>,
) -> (r: Step<AsgCall, i32>)
    ensures
        asg_runs(s, handled_ptr, *old(handled), *final(handled), event, r),
{
    match event {
        Event::Enter => {
            if s == 0 || handled_ptr == 0 {
                return Step::Return(EINVAL);
            }
            *handled = 0;
            Step::Call(AsgCall::Classify)
        },
        Event::Classified { kind, out } => {
            *handled = 1;
            if kind == ASG_DONE {
                Step::Return(out)
            } else if kind == ASG_SEC {
                Step::Tail(AsgCall::Sec)
            } else {
                Step::Abort(AsgCall::Abort, EINVAL)
            }
        },
    }
}

/// [`rust_asg_dispatch`] fails at once on a null pointer and on nothing else. Once
/// `Classify` has answered it goes by the kind: `ASG_DONE` hands back what the helper
/// gave, `ASG_SEC` runs `Sec`, and any other is refused and cleaned up by `Abort`.
pub proof fn law_asg(
    s: u64,
    handled_ptr: u64,
    before: i32,
    after: i32,
    event: Event<i32>,
    r: Step<AsgCall, i32>,
)
    requires
        asg_runs(s, handled_ptr, before, after, event, r),
    ensures
        match event {
            Event::Enter => step::enters(
                set![s, handled_ptr],
                before,
                after,
                AsgCall::Classify,
                EINVAL,
                r,
            ),
            Event::Classified { kind, out } => after == 1 && step::sorted(
                kind,
                map![
                    ASG_DONE => Step::Return(out),
                    ASG_SEC => Step::Tail(AsgCall::Sec),
                ],
                Step::Abort(AsgCall::Abort, EINVAL),
                r,
            ),
        },
{
}

/// Finished; the helper gave the result.
pub const DAV_DONE: i32 = 0;

/// Destination has none; clone from the source.
pub const DAV_CLONE: i32 = 1;

/// The helpers of [`rust_dav_dispatch`].
#[derive(Clone, Copy, PartialEq, Eq, Structural, Debug)]
pub enum DavCall {
    Classify,
    Clone,
    Abort,
}

/// What [`rust_dav_dispatch`] does at an event: the flag goes from `before` to
/// `after`, and `r` is next.
pub open spec fn dav_runs(
    s: u64,
    handled_ptr: u64,
    before: i32,
    after: i32,
    event: Event<i32>,
    r: Step<DavCall, i32>,
) -> bool {
    match event {
        Event::Enter => step::begun(
            s != 0 && handled_ptr != 0,
            DavCall::Classify,
            EINVAL,
            before,
            after,
            r,
        ),
        Event::Classified { kind, out } => after == 1 && r == if kind == DAV_DONE {
            Step::Return(out)
        } else if kind == DAV_CLONE {
            Step::Tail(DavCall::Clone)
        } else {
            Step::Abort(DavCall::Abort, EINVAL)
        },
    }
}

/// Sequences `dup_anon_vma`: decide whether a clone is needed, then clone.
pub fn rust_dav_dispatch(
    s: u64,
    handled_ptr: u64,
    handled: &mut i32,
    event: Event<i32>,
) -> (r: Step<DavCall, i32>)
    ensures
        dav_runs(s, handled_ptr, *old(handled), *final(handled), event, r),
{
    match event {
        Event::Enter => {
            if s == 0 || handled_ptr == 0 {
                return Step::Return(EINVAL);
            }
            *handled = 0;
            Step::Call(DavCall::Classify)
        },
        Event::Classified { kind, out } => {
            *handled = 1;
            if kind == DAV_DONE {
                Step::Return(out)
            } else if kind == DAV_CLONE {
                Step::Tail(DavCall::Clone)
            } else {
                Step::Abort(DavCall::Abort, EINVAL)
            }
        },
    }
}

/// [`rust_dav_dispatch`] fails at once on a null pointer and on nothing else. Once
/// `Classify` has answered it goes by the kind: `DAV_DONE` hands back what the helper
/// gave, `DAV_CLONE` runs `Clone`, and any other is refused and cleaned up by `Abort`.
pub proof fn law_dav(
    s: u64,
    handled_ptr: u64,
    before: i32,
    after: i32,
    event: Event<i32>,
    r: Step<DavCall, i32>,
)
    requires
        dav_runs(s, handled_ptr, before, after, event, r),
    ensures
        match event {
            Event::Enter => step::enters(
                set![s, handled_ptr],
                before,
                after,
                DavCall::Classify,
                EINVAL,
                r,
            ),
            Event::Classified { kind, out } => after == 1 && step::sorted(
                kind,
                map![
                    DAV_DONE => Step::Return(out),
                    DAV_CLONE => Step::Tail(DavCall::Clone),
                ],
                Step::Abort(DavCall::Abort, EINVAL),
                r,
            ),
        },
{
}

/// Finished; the helper gave the result.
pub const FMA_DONE: i32 = 0;

/// Next is missing or not reusable; try the previous.
pub const FMA_PREV: i32 = 1;

/// The helpers of [`rust_fma_dispatch`].
#[derive(Clone, Copy, PartialEq, Eq, Structural, Debug)]
pub enum FmaCall {
    Classify,
    Prev,
    Abort,
}

/// What [`rust_fma_dispatch`] does at an event: the flag goes from `before` to
/// `after`, and `r` is next.
pub open spec fn fma_runs(
    s: u64,
    handled_ptr: u64,
    before: i32,
    after: i32,
    event: Event<u64>,
    r: Step<FmaCall, u64>,
) -> bool {
    match event {
        Event::Enter => step::begun(
            s != 0 && handled_ptr != 0,
            FmaCall::Classify,
            0u64,
            before,
            after,
            r,
        ),
        Event::Classified { kind, out } => after == 1 && r == if kind == FMA_DONE {
            Step::Return(out)
        } else if kind == FMA_PREV {
            Step::Tail(FmaCall::Prev)
        } else {
            Step::Abort(FmaCall::Abort, 0u64)
        },
    }
}

/// Sequences `find_mergeable_anon_vma`: try the next mapping, then the previous.
pub fn rust_fma_dispatch(
    s: u64,
    handled_ptr: u64,
    handled: &mut i32,
    event: Event<u64>,
) -> (r: Step<FmaCall, u64>)
    ensures
        fma_runs(s, handled_ptr, *old(handled), *final(handled), event, r),
{
    match event {
        Event::Enter => {
            if s == 0 || handled_ptr == 0 {
                return Step::Return(0u64);
            }
            *handled = 0;
            Step::Call(FmaCall::Classify)
        },
        Event::Classified { kind, out } => {
            *handled = 1;
            if kind == FMA_DONE {
                Step::Return(out)
            } else if kind == FMA_PREV {
                Step::Tail(FmaCall::Prev)
            } else {
                Step::Abort(FmaCall::Abort, 0u64)
            }
        },
    }
}

/// [`rust_fma_dispatch`] fails at once on a null pointer and on nothing else. Once
/// `Classify` has answered it goes by the kind: `FMA_DONE` hands back what the helper
/// gave, `FMA_PREV` runs `Prev`, and any other is refused and cleaned up by `Abort`.
pub proof fn law_fma(
    s: u64,
    handled_ptr: u64,
    before: i32,
    after: i32,
    event: Event<u64>,
    r: Step<FmaCall, u64>,
)
    requires
        fma_runs(s, handled_ptr, before, after, event, r),
    ensures
        match event {
            Event::Enter => step::enters(
                set![s, handled_ptr],
                before,
                after,
                FmaCall::Classify,
                0u64,
                r,
            ),
            Event::Classified { kind, out } => after == 1 && step::sorted(
                kind,
                map![
                    FMA_DONE => Step::Return(out),
                    FMA_PREV => Step::Tail(FmaCall::Prev),
                ],
                Step::Abort(FmaCall::Abort, 0u64),
                r,
            ),
        },
{
}

/// Nothing left to do.
pub const VLF_DONE: i32 = 0;

/// Has a file; lock and insert.
pub const VLF_LINK: i32 = 1;

/// The helpers of [`rust_vlf_dispatch`].
#[derive(Clone, Copy, PartialEq, Eq, Structural, Debug)]
pub enum VlfCall {
    Classify,
    Link,
    Abort,
}

/// What [`rust_vlf_dispatch`] does at an event: the flag goes from `before` to
/// `after`, and `r` is next.
pub open spec fn vlf_runs(
    s: u64,
    handled_ptr: u64,
    before: i32,
    after: i32,
    event: Event<()>,
    r: Step<VlfCall, ()>,
) -> bool {
    match event {
        Event::Enter => step::begun(
            s != 0 && handled_ptr != 0,
            VlfCall::Classify,
            (),
            before,
            after,
            r,
        ),
        Event::Classified { kind, .. } => after == 1 && r == if kind == VLF_DONE {
            Step::Return(())
        } else if kind == VLF_LINK {
            Step::Tail(VlfCall::Link)
        } else {
            Step::Abort(VlfCall::Abort, ())
        },
    }
}

/// Sequences `vma_link_file`: check for a file, then insert. An unknown kind drops a
/// leftover lock.
pub fn rust_vlf_dispatch(
    s: u64,
    handled_ptr: u64,
    handled: &mut i32,
    event: Event<()>,
) -> (r: Step<VlfCall, ()>)
    ensures
        vlf_runs(s, handled_ptr, *old(handled), *final(handled), event, r),
{
    match event {
        Event::Enter => {
            if s == 0 || handled_ptr == 0 {
                return Step::Return(());
            }
            *handled = 0;
            Step::Call(VlfCall::Classify)
        },
        Event::Classified { kind, .. } => {
            *handled = 1;
            if kind == VLF_DONE {
                Step::Return(())
            } else if kind == VLF_LINK {
                Step::Tail(VlfCall::Link)
            } else {
                Step::Abort(VlfCall::Abort, ())
            }
        },
    }
}

/// [`rust_vlf_dispatch`] fails at once on a null pointer and on nothing else. Once
/// `Classify` has answered it goes by the kind: `VLF_DONE` ends it, `VLF_LINK` runs
/// `Link`, and any other is refused and cleaned up by `Abort`.
pub proof fn law_vlf(
    s: u64,
    handled_ptr: u64,
    before: i32,
    after: i32,
    event: Event<()>,
    r: Step<VlfCall, ()>,
)
    requires
        vlf_runs(s, handled_ptr, before, after, event, r),
    ensures
        match event {
            Event::Enter => step::enters(
                set![s, handled_ptr],
                before,
                after,
                VlfCall::Classify,
                (),
                r,
            ),
            Event::Classified { kind, .. } => after == 1 && step::sorted(
                kind,
                map![
                    VLF_DONE => Step::Return(()),
                    VLF_LINK => Step::Tail(VlfCall::Link),
                ],
                Step::Abort(VlfCall::Abort, ()),
                r,
            ),
        },
{
}

/// Finished; the helper gave the result.
pub const SPW_DONE: i32 = 0;

/// Under the limit; split.
pub const SPW_APPLY: i32 = 1;

/// The helpers of [`rust_spw_dispatch`].
#[derive(Clone, Copy, PartialEq, Eq, Structural, Debug)]
pub enum SpwCall {
    Classify,
    Apply,
    Abort,
}

/// What [`rust_spw_dispatch`] does at an event: the flag goes from `before` to
/// `after`, and `r` is next.
pub open spec fn spw_runs(
    s: u64,
    handled_ptr: u64,
    before: i32,
    after: i32,
    event: Event<i32>,
    r: Step<SpwCall, i32>,
) -> bool {
    match event {
        Event::Enter => step::begun(
            s != 0 && handled_ptr != 0,
            SpwCall::Classify,
            EINVAL,
            before,
            after,
            r,
        ),
        Event::Classified { kind, out } => after == 1 && r == if kind == SPW_DONE {
            Step::Return(out)
        } else if kind == SPW_APPLY {
            Step::Tail(SpwCall::Apply)
        } else {
            Step::Abort(SpwCall::Abort, EINVAL)
        },
    }
}

/// Sequences `split_vma`: check the limit on mappings, then split.
pub fn rust_spw_dispatch(
    s: u64,
    handled_ptr: u64,
    handled: &mut i32,
    event: Event<i32>,
) -> (r: Step<SpwCall, i32>)
    ensures
        spw_runs(s, handled_ptr, *old(handled), *final(handled), event, r),
{
    match event {
        Event::Enter => {
            if s == 0 || handled_ptr == 0 {
                return Step::Return(EINVAL);
            }
            *handled = 0;
            Step::Call(SpwCall::Classify)
        },
        Event::Classified { kind, out } => {
            *handled = 1;
            if kind == SPW_DONE {
                Step::Return(out)
            } else if kind == SPW_APPLY {
                Step::Tail(SpwCall::Apply)
            } else {
                Step::Abort(SpwCall::Abort, EINVAL)
            }
        },
    }
}

/// [`rust_spw_dispatch`] fails at once on a null pointer and on nothing else. Once
/// `Classify` has answered it goes by the kind: `SPW_DONE` hands back what the helper
/// gave, `SPW_APPLY` runs `Apply`, and any other is refused and cleaned up by `Abort`.
pub proof fn law_spw(
    s: u64,
    handled_ptr: u64,
    before: i32,
    after: i32,
    event: Event<i32>,
    r: Step<SpwCall, i32>,
)
    requires
        spw_runs(s, handled_ptr, before, after, event, r),
    ensures
        match event {
            Event::Enter => step::enters(
                set![s, handled_ptr],
                before,
                after,
                SpwCall::Classify,
                EINVAL,
                r,
            ),
            Event::Classified { kind, out } => after == 1 && step::sorted(
                kind,
                map![
                    SPW_DONE => Step::Return(out),
                    SPW_APPLY => Step::Tail(SpwCall::Apply),
                ],
                Step::Abort(SpwCall::Abort, EINVAL),
                r,
            ),
        },
{
}

/// No file.
pub const RVMA_ANON: i32 = 0;

/// Has a file; release it after closing.
pub const RVMA_FILE: i32 = 1;

/// The helpers of [`rust_rvma_dispatch`].
#[derive(Clone, Copy, PartialEq, Eq, Structural, Debug)]
pub enum RvmaCall {
    Classify,
    Anon,
    File,
    Abort,
}

/// What [`rust_rvma_dispatch`] does at an event: the flag goes from `before` to
/// `after`, and `r` is next.
pub open spec fn rvma_runs(
    s: u64,
    handled_ptr: u64,
    before: i32,
    after: i32,
    event: Event<()>,
    r: Step<RvmaCall, ()>,
) -> bool {
    match event {
        Event::Enter => step::begun(
            s != 0 && handled_ptr != 0,
            RvmaCall::Classify,
            (),
            before,
            after,
            r,
        ),
        Event::Classified { kind, .. } => after == 1 && r == if kind == RVMA_ANON {
            Step::Tail(RvmaCall::Anon)
        } else if kind == RVMA_FILE {
            Step::Tail(RvmaCall::File)
        } else {
            Step::Abort(RvmaCall::Abort, ())
        },
    }
}

/// Sequences `remove_vma`: close, with or without a file.
pub fn rust_rvma_dispatch(
    s: u64,
    handled_ptr: u64,
    handled: &mut i32,
    event: Event<()>,
) -> (r: Step<RvmaCall, ()>)
    ensures
        rvma_runs(s, handled_ptr, *old(handled), *final(handled), event, r),
{
    match event {
        Event::Enter => {
            if s == 0 || handled_ptr == 0 {
                return Step::Return(());
            }
            *handled = 0;
            Step::Call(RvmaCall::Classify)
        },
        Event::Classified { kind, .. } => {
            *handled = 1;
            if kind == RVMA_ANON {
                Step::Tail(RvmaCall::Anon)
            } else if kind == RVMA_FILE {
                Step::Tail(RvmaCall::File)
            } else {
                Step::Abort(RvmaCall::Abort, ())
            }
        },
    }
}

/// [`rust_rvma_dispatch`] fails at once on a null pointer and on nothing else. Once
/// `Classify` has answered it goes by the kind: `RVMA_ANON` runs `Anon`, `RVMA_FILE`
/// runs `File`, and any other is refused and cleaned up by `Abort`.
pub proof fn law_rvma(
    s: u64,
    handled_ptr: u64,
    before: i32,
    after: i32,
    event: Event<()>,
    r: Step<RvmaCall, ()>,
)
    requires
        rvma_runs(s, handled_ptr, before, after, event, r),
    ensures
        match event {
            Event::Enter => step::enters(
                set![s, handled_ptr],
                before,
                after,
                RvmaCall::Classify,
                (),
                r,
            ),
            Event::Classified { kind, .. } => after == 1 && step::sorted(
                kind,
                map![
                    RVMA_ANON => Step::Tail(RvmaCall::Anon),
                    RVMA_FILE => Step::Tail(RvmaCall::File),
                ],
                Step::Abort(RvmaCall::Abort, ()),
                r,
            ),
        },
{
}

/// Request set up; merge.
pub const VME_APPLY: i32 = 0;

/// The helpers of [`rust_vme_dispatch`].
#[derive(Clone, Copy, PartialEq, Eq, Structural, Debug)]
pub enum VmeCall {
    Classify,
    Apply,
    Abort,
}

/// What [`rust_vme_dispatch`] does at an event: the flag goes from `before` to
/// `after`, and `r` is next.
pub open spec fn vme_runs(
    s: u64,
    handled_ptr: u64,
    before: i32,
    after: i32,
    event: Event<()>,
    r: Step<VmeCall, u64>,
) -> bool {
    match event {
        Event::Enter => step::begun(
            s != 0 && handled_ptr != 0,
            VmeCall::Classify,
            0u64,
            before,
            after,
            r,
        ),
        Event::Classified { kind, .. } => after == 1 && r == if kind == VME_APPLY {
            Step::Tail(VmeCall::Apply)
        } else {
            Step::Abort(VmeCall::Abort, 0u64)
        },
    }
}

/// Sequences `vma_merge_extend`: set up the request, then merge.
pub fn rust_vme_dispatch(
    s: u64,
    handled_ptr: u64,
    handled: &mut i32,
    event: Event<()>,
) -> (r: Step<VmeCall, u64>)
    ensures
        vme_runs(s, handled_ptr, *old(handled), *final(handled), event, r),
{
    match event {
        Event::Enter => {
            if s == 0 || handled_ptr == 0 {
                return Step::Return(0u64);
            }
            *handled = 0;
            Step::Call(VmeCall::Classify)
        },
        Event::Classified { kind, .. } => {
            *handled = 1;
            if kind == VME_APPLY {
                Step::Tail(VmeCall::Apply)
            } else {
                Step::Abort(VmeCall::Abort, 0u64)
            }
        },
    }
}

/// [`rust_vme_dispatch`] fails at once on a null pointer and on nothing else. Once
/// `Classify` has answered it goes by the kind: `VME_APPLY` runs `Apply`, and any other
/// is refused and cleaned up by `Abort`.
pub proof fn law_vme(
    s: u64,
    handled_ptr: u64,
    before: i32,
    after: i32,
    event: Event<()>,
    r: Step<VmeCall, u64>,
)
    requires
        vme_runs(s, handled_ptr, before, after, event, r),
    ensures
        match event {
            Event::Enter => step::enters(
                set![s, handled_ptr],
                before,
                after,
                VmeCall::Classify,
                0u64,
                r,
            ),
            Event::Classified { kind, .. } => after == 1 && step::sorted(
                kind,
                map![
                    VME_APPLY => Step::Tail(VmeCall::Apply),
                ],
                Step::Abort(VmeCall::Abort, 0u64),
                r,
            ),
        },
{
}

} // verus!
