//! `madvise` sequencers (`do_madvise`, `vector_madvise`, walks).
//!
//! What a single hint does is a helper.

use vstd::prelude::*;
use crate::error::{EINVAL, EINVAL_LONG};
use crate::mm::step;
use crate::mm::step::{Event, Step};

verus! {

/// Finished; the helper gave the result.
pub const MADVISE_DONE: i32 = 0;

/// Range is valid; lock, walk, unlock.
pub const MADVISE_APPLY: i32 = 1;

/// The helpers of [`rust_madvise_dispatch`].
#[derive(Clone, Copy, PartialEq, Eq, Structural, Debug)]
pub enum MadviseCall {
    Prepare,
    Apply,
}

/// What [`rust_madvise_dispatch`] does at an event: the flag goes from `before` to
/// `after`, and `r` is next.
pub open spec fn madvise_runs(
    mm: u64,
    handled_ptr: u64,
    before: i32,
    after: i32,
    event: Event<i32>,
    r: Step<MadviseCall, i32>,
) -> bool {
    match event {
        Event::Enter => step::begun(
            mm != 0 && handled_ptr != 0,
            MadviseCall::Prepare,
            EINVAL,
            before,
            after,
            r,
        ),
        Event::Classified { kind, out } => after == 1 && r == if kind == MADVISE_DONE {
            Step::Return(out)
        } else if kind == MADVISE_APPLY {
            Step::Tail(MadviseCall::Apply)
        } else {
            Step::Reject(EINVAL)
        },
    }
}

/// Sequences `do_madvise`: validate behavior and range, then apply.
pub fn rust_madvise_dispatch(
    mm: u64,
    handled_ptr: u64,
    handled: &mut i32,
    event: Event<i32>,
) -> (r: Step<MadviseCall, i32>)
    ensures
        madvise_runs(mm, handled_ptr, *old(handled), *final(handled), event, r),
{
    match event {
        Event::Enter => {
            if mm == 0 || handled_ptr == 0 {
                return Step::Return(EINVAL);
            }
            *handled = 0;
            Step::Call(MadviseCall::Prepare)
        },
        Event::Classified { kind, out } => {
            *handled = 1;
            if kind == MADVISE_DONE {
                Step::Return(out)
            } else if kind == MADVISE_APPLY {
                Step::Tail(MadviseCall::Apply)
            } else {
                Step::Reject(EINVAL)
            }
        },
    }
}

/// [`rust_madvise_dispatch`] fails at once on a null pointer and on nothing else. Once
/// `Prepare` has answered it goes by the kind: `MADVISE_DONE` hands back what the
/// helper gave, `MADVISE_APPLY` runs `Apply`, and any other is refused.
pub proof fn law_madvise(
    mm: u64,
    handled_ptr: u64,
    before: i32,
    after: i32,
    event: Event<i32>,
    r: Step<MadviseCall, i32>,
)
    requires
        madvise_runs(mm, handled_ptr, before, after, event, r),
    ensures
        match event {
            Event::Enter => step::enters(
                set![mm, handled_ptr],
                before,
                after,
                MadviseCall::Prepare,
                EINVAL,
                r,
            ),
            Event::Classified { kind, out } => after == 1 && step::sorted(
                kind,
                map![
                    MADVISE_DONE => Step::Return(out),
                    MADVISE_APPLY => Step::Tail(MadviseCall::Apply),
                ],
                Step::Reject(EINVAL),
                r,
            ),
        },
{
}

/// Finished; the helper gave the result.
pub const VMADV_DONE: i32 = 0;

/// Lock taken; walk each range then unlock.
pub const VMADV_WALK: i32 = 1;

/// The helpers of [`rust_vmadvise_dispatch`].
#[derive(Clone, Copy, PartialEq, Eq, Structural, Debug)]
pub enum VmadviseCall {
    Lock,
    Walk,
    Abort,
}

/// What [`rust_vmadvise_dispatch`] does at an event: the flag goes from `before` to
/// `after`, and `r` is next.
pub open spec fn vmadvise_runs(
    s: u64,
    handled_ptr: u64,
    before: i32,
    after: i32,
    event: Event<i32>,
    r: Step<VmadviseCall, i64>,
) -> bool {
    match event {
        Event::Enter => step::begun(
            s != 0 && handled_ptr != 0,
            VmadviseCall::Lock,
            EINVAL_LONG,
            before,
            after,
            r,
        ),
        Event::Classified { kind, out } => after == 1 && r == if kind == VMADV_DONE {
            Step::Return(out as i64)
        } else if kind == VMADV_WALK {
            Step::Tail(VmadviseCall::Walk)
        } else {
            Step::Abort(VmadviseCall::Abort, EINVAL_LONG)
        },
    }
}

/// Sequences `vector_madvise`: take the lock, then walk. A lock that fails returns
/// without walking.
pub fn rust_vmadvise_dispatch(
    s: u64,
    handled_ptr: u64,
    handled: &mut i32,
    event: Event<i32>,
) -> (r: Step<VmadviseCall, i64>)
    ensures
        vmadvise_runs(s, handled_ptr, *old(handled), *final(handled), event, r),
{
    match event {
        Event::Enter => {
            if s == 0 || handled_ptr == 0 {
                return Step::Return(EINVAL_LONG);
            }
            *handled = 0;
            Step::Call(VmadviseCall::Lock)
        },
        Event::Classified { kind, out } => {
            *handled = 1;
            if kind == VMADV_DONE {
                Step::Return(out as i64)
            } else if kind == VMADV_WALK {
                Step::Tail(VmadviseCall::Walk)
            } else {
                Step::Abort(VmadviseCall::Abort, EINVAL_LONG)
            }
        },
    }
}

/// [`rust_vmadvise_dispatch`] fails at once on a null pointer and on nothing else. Once
/// `Lock` has answered it goes by the kind: `VMADV_DONE` hands back what the helper
/// gave, `VMADV_WALK` runs `Walk`, and any other is refused and cleaned up by `Abort`.
pub proof fn law_vmadvise(
    s: u64,
    handled_ptr: u64,
    before: i32,
    after: i32,
    event: Event<i32>,
    r: Step<VmadviseCall, i64>,
)
    requires
        vmadvise_runs(s, handled_ptr, before, after, event, r),
    ensures
        match event {
            Event::Enter => step::enters(
                set![s, handled_ptr],
                before,
                after,
                VmadviseCall::Lock,
                EINVAL_LONG,
                r,
            ),
            Event::Classified { kind, out } => after == 1 && step::sorted(
                kind,
                map![
                    VMADV_DONE => Step::Return(out as i64),
                    VMADV_WALK => Step::Tail(VmadviseCall::Walk),
                ],
                Step::Abort(VmadviseCall::Abort, EINVAL_LONG),
                r,
            ),
        },
{
}

/// Finished; the helper gave the result.
pub const MDO_DONE: i32 = 0;

/// Prefault.
pub const MDO_POPULATE: i32 = 1;

/// Walk the mappings.
pub const MDO_WALK: i32 = 2;

/// The helpers of [`rust_mdo_dispatch`].
#[derive(Clone, Copy, PartialEq, Eq, Structural, Debug)]
pub enum MdoCall {
    Classify,
    Populate,
    Walk,
}

/// What [`rust_mdo_dispatch`] does at an event: the flag goes from `before` to
/// `after`, and `r` is next.
pub open spec fn mdo_runs(
    m: u64,
    handled_ptr: u64,
    before: i32,
    after: i32,
    event: Event<i32>,
    r: Step<MdoCall, i32>,
) -> bool {
    match event {
        Event::Enter => step::begun(
            m != 0 && handled_ptr != 0,
            MdoCall::Classify,
            EINVAL,
            before,
            after,
            r,
        ),
        Event::Classified { kind, out } => after == 1 && r == if kind == MDO_DONE {
            Step::Return(out)
        } else if kind == MDO_POPULATE {
            Step::Tail(MdoCall::Populate)
        } else if kind == MDO_WALK {
            Step::Tail(MdoCall::Walk)
        } else {
            Step::Reject(EINVAL)
        },
    }
}

/// Sequences `madvise_do_behavior`: return, prefault, or walk.
pub fn rust_mdo_dispatch(
    m: u64,
    handled_ptr: u64,
    handled: &mut i32,
    event: Event<i32>,
) -> (r: Step<MdoCall, i32>)
    ensures
        mdo_runs(m, handled_ptr, *old(handled), *final(handled), event, r),
{
    match event {
        Event::Enter => {
            if m == 0 || handled_ptr == 0 {
                return Step::Return(EINVAL);
            }
            *handled = 0;
            Step::Call(MdoCall::Classify)
        },
        Event::Classified { kind, out } => {
            *handled = 1;
            if kind == MDO_DONE {
                Step::Return(out)
            } else if kind == MDO_POPULATE {
                Step::Tail(MdoCall::Populate)
            } else if kind == MDO_WALK {
                Step::Tail(MdoCall::Walk)
            } else {
                Step::Reject(EINVAL)
            }
        },
    }
}

/// [`rust_mdo_dispatch`] fails at once on a null pointer and on nothing else. Once
/// `Classify` has answered it goes by the kind: `MDO_DONE` hands back what the helper
/// gave, `MDO_POPULATE` runs `Populate`, `MDO_WALK` runs `Walk`, and any other is
/// refused.
pub proof fn law_mdo(
    m: u64,
    handled_ptr: u64,
    before: i32,
    after: i32,
    event: Event<i32>,
    r: Step<MdoCall, i32>,
)
    requires
        mdo_runs(m, handled_ptr, before, after, event, r),
    ensures
        match event {
            Event::Enter => step::enters(
                set![m, handled_ptr],
                before,
                after,
                MdoCall::Classify,
                EINVAL,
                r,
            ),
            Event::Classified { kind, out } => after == 1 && step::sorted(
                kind,
                map![
                    MDO_DONE => Step::Return(out),
                    MDO_POPULATE => Step::Tail(MdoCall::Populate),
                    MDO_WALK => Step::Tail(MdoCall::Walk),
                ],
                Step::Reject(EINVAL),
                r,
            ),
        },
{
}

/// Finished; the helper gave the result.
pub const MWALK_DONE: i32 = 0;

/// More than one mapping; iterate.
pub const MWALK_ITER: i32 = 1;

/// The helpers of [`rust_mwalk_dispatch`].
#[derive(Clone, Copy, PartialEq, Eq, Structural, Debug)]
pub enum MwalkCall {
    Start,
    Iter,
}

/// What [`rust_mwalk_dispatch`] does at an event: the flag goes from `before` to
/// `after`, and `r` is next.
pub open spec fn mwalk_runs(
    m: u64,
    handled_ptr: u64,
    before: i32,
    after: i32,
    event: Event<i32>,
    r: Step<MwalkCall, i32>,
) -> bool {
    match event {
        Event::Enter => step::begun(
            m != 0 && handled_ptr != 0,
            MwalkCall::Start,
            EINVAL,
            before,
            after,
            r,
        ),
        Event::Classified { kind, out } => after == 1 && r == if kind == MWALK_DONE {
            Step::Return(out)
        } else if kind == MWALK_ITER {
            Step::Tail(MwalkCall::Iter)
        } else {
            Step::Reject(EINVAL)
        },
    }
}

/// Sequences `madvise_walk_vmas`: try a single mapping, then iterate.
pub fn rust_mwalk_dispatch(
    m: u64,
    handled_ptr: u64,
    handled: &mut i32,
    event: Event<i32>,
) -> (r: Step<MwalkCall, i32>)
    ensures
        mwalk_runs(m, handled_ptr, *old(handled), *final(handled), event, r),
{
    match event {
        Event::Enter => {
            if m == 0 || handled_ptr == 0 {
                return Step::Return(EINVAL);
            }
            *handled = 0;
            Step::Call(MwalkCall::Start)
        },
        Event::Classified { kind, out } => {
            *handled = 1;
            if kind == MWALK_DONE {
                Step::Return(out)
            } else if kind == MWALK_ITER {
                Step::Tail(MwalkCall::Iter)
            } else {
                Step::Reject(EINVAL)
            }
        },
    }
}

/// [`rust_mwalk_dispatch`] fails at once on a null pointer and on nothing else. Once
/// `Start` has answered it goes by the kind: `MWALK_DONE` hands back what the helper
/// gave, `MWALK_ITER` runs `Iter`, and any other is refused.
pub proof fn law_mwalk(
    m: u64,
    handled_ptr: u64,
    before: i32,
    after: i32,
    event: Event<i32>,
    r: Step<MwalkCall, i32>,
)
    requires
        mwalk_runs(m, handled_ptr, before, after, event, r),
    ensures
        match event {
            Event::Enter => step::enters(
                set![m, handled_ptr],
                before,
                after,
                MwalkCall::Start,
                EINVAL,
                r,
            ),
            Event::Classified { kind, out } => after == 1 && step::sorted(
                kind,
                map![
                    MWALK_DONE => Step::Return(out),
                    MWALK_ITER => Step::Tail(MwalkCall::Iter),
                ],
                Step::Reject(EINVAL),
                r,
            ),
        },
{
}

/// Finished; the helper gave the result.
pub const MVMA_DIRECT: i32 = 0;

/// The helper failed; convert the error and leave the mapping alone.
pub const MVMA_CONVERT: i32 = 1;

/// Flags change; update the mapping, then convert.
pub const MVMA_UPDATE: i32 = 2;

/// The helpers of [`rust_mvma_dispatch`].
#[derive(Clone, Copy, PartialEq, Eq, Structural, Debug)]
pub enum MvmaCall {
    Classify,
    Convert { err: i32 },
    Update,
}

/// What [`rust_mvma_dispatch`] does at an event: the flag goes from `before` to
/// `after`, and `r` is next.
pub open spec fn mvma_runs(
    s: u64,
    handled_ptr: u64,
    before: i32,
    after: i32,
    event: Event<i32>,
    r: Step<MvmaCall, i32>,
) -> bool {
    match event {
        Event::Enter => step::begun(
            s != 0 && handled_ptr != 0,
            MvmaCall::Classify,
            EINVAL,
            before,
            after,
            r,
        ),
        Event::Classified { kind, out } => after == 1 && r == if kind
            == MVMA_DIRECT {
            Step::Return(out)
        } else if kind == MVMA_CONVERT {
            Step::Tail(MvmaCall::Convert { err: out })
        } else if kind == MVMA_UPDATE {
            Step::Tail(MvmaCall::Update)
        } else {
            Step::Reject(EINVAL)
        },
    }
}

/// Sequences `madvise_vma_behavior`: return directly, convert an error, or update.
pub fn rust_mvma_dispatch(s: u64, handled_ptr: u64, handled: &mut i32, event: Event<i32>) -> (r:
    Step<MvmaCall, i32>)
    ensures
        mvma_runs(s, handled_ptr, *old(handled), *final(handled), event, r),
{
    match event {
        Event::Enter => {
            if s == 0 || handled_ptr == 0 {
                return Step::Return(EINVAL);
            }
            *handled = 0;
            Step::Call(MvmaCall::Classify)
        },
        Event::Classified { kind, out } => {
            *handled = 1;
            if kind == MVMA_DIRECT {
                Step::Return(out)
            } else if kind == MVMA_CONVERT {
                Step::Tail(MvmaCall::Convert { err: out })
            } else if kind == MVMA_UPDATE {
                Step::Tail(MvmaCall::Update)
            } else {
                Step::Reject(EINVAL)
            }
        },
    }
}

/// [`rust_mvma_dispatch`] fails at once on a null pointer and on nothing else. Once
/// `Classify` has answered it goes by the kind: `MVMA_DIRECT` hands back what the
/// helper gave, `MVMA_CONVERT` runs `Convert`, `MVMA_UPDATE` runs `Update`, and any
/// other is refused.
pub proof fn law_mvma(
    s: u64,
    handled_ptr: u64,
    before: i32,
    after: i32,
    event: Event<i32>,
    r: Step<MvmaCall, i32>,
)
    requires
        mvma_runs(s, handled_ptr, before, after, event, r),
    ensures
        match event {
            Event::Enter => step::enters(
                set![s, handled_ptr],
                before,
                after,
                MvmaCall::Classify,
                EINVAL,
                r,
            ),
            Event::Classified { kind, out } => after == 1 && step::sorted(
                kind,
                map![
                    MVMA_DIRECT => Step::Return(out),
                    MVMA_CONVERT => Step::Tail(MvmaCall::Convert { err: out }),
                    MVMA_UPDATE => Step::Tail(MvmaCall::Update),
                ],
                Step::Reject(EINVAL),
                r,
            ),
        },
{
}

/// Finished; the helper gave the result.
pub const MDNF_DONE: i32 = 0;

/// Zap.
pub const MDNF_DONTNEED: i32 = 1;

/// Free lazily.
pub const MDNF_FREE: i32 = 2;

/// The helpers of [`rust_mdnf_dispatch`].
#[derive(Clone, Copy, PartialEq, Eq, Structural, Debug)]
pub enum MdnfCall {
    Classify,
    Dontneed,
    Free,
}

/// What [`rust_mdnf_dispatch`] does at an event: the flag goes from `before` to
/// `after`, and `r` is next.
pub open spec fn mdnf_runs(
    m: u64,
    handled_ptr: u64,
    before: i32,
    after: i32,
    event: Event<i64>,
    r: Step<MdnfCall, i64>,
) -> bool {
    match event {
        Event::Enter => step::begun(
            m != 0 && handled_ptr != 0,
            MdnfCall::Classify,
            EINVAL_LONG,
            before,
            after,
            r,
        ),
        Event::Classified { kind, out } => after == 1 && r == if kind == MDNF_DONE {
            Step::Return(out)
        } else if kind == MDNF_DONTNEED {
            Step::Tail(MdnfCall::Dontneed)
        } else if kind == MDNF_FREE {
            Step::Tail(MdnfCall::Free)
        } else {
            Step::Reject(EINVAL_LONG)
        },
    }
}

/// Sequences `madvise_dontneed_free`: zap, or free lazily.
pub fn rust_mdnf_dispatch(
    m: u64,
    handled_ptr: u64,
    handled: &mut i32,
    event: Event<i64>,
) -> (r: Step<MdnfCall, i64>)
    ensures
        mdnf_runs(m, handled_ptr, *old(handled), *final(handled), event, r),
{
    match event {
        Event::Enter => {
            if m == 0 || handled_ptr == 0 {
                return Step::Return(EINVAL_LONG);
            }
            *handled = 0;
            Step::Call(MdnfCall::Classify)
        },
        Event::Classified { kind, out } => {
            *handled = 1;
            if kind == MDNF_DONE {
                Step::Return(out)
            } else if kind == MDNF_DONTNEED {
                Step::Tail(MdnfCall::Dontneed)
            } else if kind == MDNF_FREE {
                Step::Tail(MdnfCall::Free)
            } else {
                Step::Reject(EINVAL_LONG)
            }
        },
    }
}

/// [`rust_mdnf_dispatch`] fails at once on a null pointer and on nothing else. Once
/// `Classify` has answered it goes by the kind: `MDNF_DONE` hands back what the helper
/// gave, `MDNF_DONTNEED` runs `Dontneed`, `MDNF_FREE` runs `Free`, and any other is
/// refused.
pub proof fn law_mdnf(
    m: u64,
    handled_ptr: u64,
    before: i32,
    after: i32,
    event: Event<i64>,
    r: Step<MdnfCall, i64>,
)
    requires
        mdnf_runs(m, handled_ptr, before, after, event, r),
    ensures
        match event {
            Event::Enter => step::enters(
                set![m, handled_ptr],
                before,
                after,
                MdnfCall::Classify,
                EINVAL_LONG,
                r,
            ),
            Event::Classified { kind, out } => after == 1 && step::sorted(
                kind,
                map![
                    MDNF_DONE => Step::Return(out),
                    MDNF_DONTNEED => Step::Tail(MdnfCall::Dontneed),
                    MDNF_FREE => Step::Tail(MdnfCall::Free),
                ],
                Step::Reject(EINVAL_LONG),
                r,
            ),
        },
{
}

/// Finished; the helper gave the result.
pub const MUPD_DONE: i32 = 0;

/// Split or merge, then set the name.
pub const MUPD_NAME: i32 = 1;

/// Split or merge for flags.
pub const MUPD_FLAGS: i32 = 2;

/// The helpers of [`rust_mupd_dispatch`].
#[derive(Clone, Copy, PartialEq, Eq, Structural, Debug)]
pub enum MupdCall {
    Classify,
    Name,
    Flags,
}

/// What [`rust_mupd_dispatch`] does at an event: the flag goes from `before` to
/// `after`, and `r` is next.
pub open spec fn mupd_runs(
    s: u64,
    handled_ptr: u64,
    before: i32,
    after: i32,
    event: Event<i32>,
    r: Step<MupdCall, i32>,
) -> bool {
    match event {
        Event::Enter => step::begun(
            s != 0 && handled_ptr != 0,
            MupdCall::Classify,
            EINVAL,
            before,
            after,
            r,
        ),
        Event::Classified { kind, out } => after == 1 && r == if kind == MUPD_DONE {
            Step::Return(out)
        } else if kind == MUPD_NAME {
            Step::Tail(MupdCall::Name)
        } else if kind == MUPD_FLAGS {
            Step::Tail(MupdCall::Flags)
        } else {
            Step::Reject(EINVAL)
        },
    }
}

/// Sequences `madvise_update_vma`: set the name, or the flags.
pub fn rust_mupd_dispatch(
    s: u64,
    handled_ptr: u64,
    handled: &mut i32,
    event: Event<i32>,
) -> (r: Step<MupdCall, i32>)
    ensures
        mupd_runs(s, handled_ptr, *old(handled), *final(handled), event, r),
{
    match event {
        Event::Enter => {
            if s == 0 || handled_ptr == 0 {
                return Step::Return(EINVAL);
            }
            *handled = 0;
            Step::Call(MupdCall::Classify)
        },
        Event::Classified { kind, out } => {
            *handled = 1;
            if kind == MUPD_DONE {
                Step::Return(out)
            } else if kind == MUPD_NAME {
                Step::Tail(MupdCall::Name)
            } else if kind == MUPD_FLAGS {
                Step::Tail(MupdCall::Flags)
            } else {
                Step::Reject(EINVAL)
            }
        },
    }
}

/// [`rust_mupd_dispatch`] fails at once on a null pointer and on nothing else. Once
/// `Classify` has answered it goes by the kind: `MUPD_DONE` hands back what the helper
/// gave, `MUPD_NAME` runs `Name`, `MUPD_FLAGS` runs `Flags`, and any other is refused.
pub proof fn law_mupd(
    s: u64,
    handled_ptr: u64,
    before: i32,
    after: i32,
    event: Event<i32>,
    r: Step<MupdCall, i32>,
)
    requires
        mupd_runs(s, handled_ptr, before, after, event, r),
    ensures
        match event {
            Event::Enter => step::enters(
                set![s, handled_ptr],
                before,
                after,
                MupdCall::Classify,
                EINVAL,
                r,
            ),
            Event::Classified { kind, out } => after == 1 && step::sorted(
                kind,
                map![
                    MUPD_DONE => Step::Return(out),
                    MUPD_NAME => Step::Tail(MupdCall::Name),
                    MUPD_FLAGS => Step::Tail(MupdCall::Flags),
                ],
                Step::Reject(EINVAL),
                r,
            ),
        },
{
}

/// Finished; the helper gave the result.
pub const PMAD_DONE: i32 = 0;

/// Target and ranges acquired; advise then release.
pub const PMAD_APPLY: i32 = 1;

/// The helpers of [`rust_pmad_dispatch`].
#[derive(Clone, Copy, PartialEq, Eq, Structural, Debug)]
pub enum PmadCall {
    Classify,
    Apply,
    Abort,
}

/// What [`rust_pmad_dispatch`] does at an event: the flag goes from `before` to
/// `after`, and `r` is next.
pub open spec fn pmad_runs(
    s: u64,
    handled_ptr: u64,
    before: i32,
    after: i32,
    event: Event<i64>,
    r: Step<PmadCall, i64>,
) -> bool {
    match event {
        Event::Enter => step::begun(
            s != 0 && handled_ptr != 0,
            PmadCall::Classify,
            EINVAL_LONG,
            before,
            after,
            r,
        ),
        Event::Classified { kind, out } => after == 1 && r == if kind == PMAD_DONE {
            Step::Return(out)
        } else if kind == PMAD_APPLY {
            Step::Tail(PmadCall::Apply)
        } else {
            Step::Abort(PmadCall::Abort, EINVAL_LONG)
        },
    }
}

/// Sequences `process_madvise`: acquire, then apply. An unknown kind releases what was
/// acquired.
pub fn rust_pmad_dispatch(
    s: u64,
    handled_ptr: u64,
    handled: &mut i32,
    event: Event<i64>,
) -> (r: Step<PmadCall, i64>)
    ensures
        pmad_runs(s, handled_ptr, *old(handled), *final(handled), event, r),
{
    match event {
        Event::Enter => {
            if s == 0 || handled_ptr == 0 {
                return Step::Return(EINVAL_LONG);
            }
            *handled = 0;
            Step::Call(PmadCall::Classify)
        },
        Event::Classified { kind, out } => {
            *handled = 1;
            if kind == PMAD_DONE {
                Step::Return(out)
            } else if kind == PMAD_APPLY {
                Step::Tail(PmadCall::Apply)
            } else {
                Step::Abort(PmadCall::Abort, EINVAL_LONG)
            }
        },
    }
}

/// [`rust_pmad_dispatch`] fails at once on a null pointer and on nothing else. Once
/// `Classify` has answered it goes by the kind: `PMAD_DONE` hands back what the helper
/// gave, `PMAD_APPLY` runs `Apply`, and any other is refused and cleaned up by `Abort`.
pub proof fn law_pmad(
    s: u64,
    handled_ptr: u64,
    before: i32,
    after: i32,
    event: Event<i64>,
    r: Step<PmadCall, i64>,
)
    requires
        pmad_runs(s, handled_ptr, before, after, event, r),
    ensures
        match event {
            Event::Enter => step::enters(
                set![s, handled_ptr],
                before,
                after,
                PmadCall::Classify,
                EINVAL_LONG,
                r,
            ),
            Event::Classified { kind, out } => after == 1 && step::sorted(
                kind,
                map![
                    PMAD_DONE => Step::Return(out),
                    PMAD_APPLY => Step::Tail(PmadCall::Apply),
                ],
                Step::Abort(PmadCall::Abort, EINVAL_LONG),
                r,
            ),
        },
{
}

} // verus!
