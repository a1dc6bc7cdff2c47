//! Sequencers that install mappings (`do_mmap`, `mmap_region`, `ksys_mmap_pgoff`).
//!
//! Mapping files, shared memory and stores into the range tree are helpers.

use vstd::prelude::*;
use crate::error::{EINVAL, EINVAL_ADDR, EINVAL_LONG};
use crate::mm::step;
use crate::mm::step::{Event, Step};

verus! {

/// Finished; the helper gave the result.
pub const DOMMAP_DONE: i32 = 0;

/// Flags and address chosen; install.
pub const DOMMAP_REGION: i32 = 1;

/// The helpers of [`rust_dommap_dispatch`].
#[derive(Clone, Copy, PartialEq, Eq, Structural, Debug)]
pub enum DommapCall {
    Prepare,
    /// Install with this address, length and offset. The flags are for the step after.
    Region { addr: u64, len: u64, pgoff: u64, flags: u64 },
    /// Decide how much to populate of the mapping at `mapped`.
    Populate { mapped: u64, flags: u64, len: u64 },
}

/// What happened since the last step of [`rust_dommap_dispatch`].
#[derive(Clone, Copy, PartialEq, Eq, Structural, Debug)]
pub enum DommapEvent {
    Enter,
    /// Prepared, which may have changed the address, length, offset and flags to these.
    Prepared { kind: i32, out: u64, addr: u64, len: u64, pgoff: u64, flags: u64 },
    /// Installing gave this address or error; the flags and the length are those it was
    /// asked with.
    Mapped { mapped: u64, flags: u64, len: u64 },
}

/// The pointers that [`rust_dommap_dispatch`] is called with.
#[derive(Clone, Copy, PartialEq, Eq, Structural, Debug)]
pub struct DommapArgs {
    pub addr: u64,
    pub len: u64,
    pub prot: u64,
    pub flags: u64,
    pub vma_flags: u64,
    pub pgoff: u64,
    pub populate: u64,
    pub handled: u64,
}

impl DommapArgs {
    /// None of the pointers is null.
    pub open spec fn live(self) -> bool {
        self.addr != 0 && self.len != 0 && self.prot != 0 && self.flags != 0 && self.vma_flags != 0
            && self.pgoff != 0 && self.populate != 0 && self.handled != 0
    }
}

/// What follows an event of [`rust_dommap_dispatch`] once it is entered.
pub open spec fn dommap_next(event: DommapEvent) -> Step<DommapCall, u64> {
    match event {
        DommapEvent::Enter => Step::Call(DommapCall::Prepare),
        DommapEvent::Prepared { kind, out, addr, len, pgoff, flags } => if kind == DOMMAP_DONE {
            Step::Return(out)
        } else if kind == DOMMAP_REGION {
            Step::Call(DommapCall::Region { addr, len, pgoff, flags })
        } else {
            Step::Reject(EINVAL_ADDR)
        },
        DommapEvent::Mapped { mapped, flags, len } => Step::Finish(
            DommapCall::Populate { mapped, flags, len },
            mapped,
        ),
    }
}

/// Whether an event of [`rust_dommap_dispatch`] is the outcome of a helper.
pub open spec fn dommap_answers(call: DommapCall, event: DommapEvent) -> bool {
    match call {
        DommapCall::Prepare => event is Prepared,
        DommapCall::Region { len, flags, .. } => event matches DommapEvent::Mapped {
            flags: f,
            len: n,
            ..
        } && f == flags && n == len,
        DommapCall::Populate { .. } => false,
    }
}

/// What [`rust_dommap_dispatch`] does at an event: the flag goes from `before` to
/// `after`, and `r` is next.
pub open spec fn dommap_runs(
    args: DommapArgs,
    populate_before: u64,
    populate_after: u64,
    before: i32,
    after: i32,
    event: DommapEvent,
    r: Step<DommapCall, u64>,
) -> bool {
    match event {
        DommapEvent::Enter => {
            &&& step::begun(
                args.live(),
                DommapCall::Prepare,
                EINVAL_ADDR,
                before,
                after,
                r,
            )
            &&& populate_after == if args.live() {
                0
            } else {
                populate_before
            }
        },
        DommapEvent::Prepared { .. } => {
            &&& after == 1
            &&& populate_after == populate_before
            &&& r == dommap_next(event)
        },
        DommapEvent::Mapped { .. } => {
            &&& after == before
            &&& populate_after == populate_before
            &&& r == dommap_next(event)
        },
    }
}

/// Sequences `do_mmap`: choose flags and address, install, then decide what to
/// populate, which is nothing until then. Installing and populating go by the values
/// that preparing left.
pub fn rust_dommap_dispatch(
    args: DommapArgs,
    populate: &mut u64,
    handled: &mut i32,
    event: DommapEvent,
) -> (r: Step<DommapCall, u64>)
    ensures
        dommap_runs(
            args,
            *old(populate),
            *final(populate),
            *old(handled),
            *final(handled),
            event,
            r,
        ),
{
    match event {
        DommapEvent::Enter => {
            if args.addr == 0 || args.len == 0 || args.prot == 0 || args.flags == 0
                || args.vma_flags == 0 || args.pgoff == 0 || args.populate == 0 || args.handled
                == 0 {
                return Step::Return(EINVAL_ADDR);
            }
            *handled = 0;
            *populate = 0;
            Step::Call(DommapCall::Prepare)
        },
        DommapEvent::Prepared { kind, out, addr, len, pgoff, flags } => {
            *handled = 1;
            if kind == DOMMAP_DONE {
                Step::Return(out)
            } else if kind == DOMMAP_REGION {
                Step::Call(DommapCall::Region { addr, len, pgoff, flags })
            } else {
                Step::Reject(EINVAL_ADDR)
            }
        },
        DommapEvent::Mapped { mapped, flags, len } => Step::Finish(
            DommapCall::Populate { mapped, flags, len },
            mapped,
        ),
    }
}

/// [`rust_dommap_dispatch`] fails at once if one of its eight pointers is null and on
/// nothing else. What is to be populated is nothing from the start on, and is left alone
/// after that. An answer that is finished is handed back as it came; an install is followed
/// by populating whatever it gave.
pub proof fn law_dommap(
    args: DommapArgs,
    populate_before: u64,
    populate_after: u64,
    before: i32,
    after: i32,
    event: DommapEvent,
    r: Step<DommapCall, u64>,
)
    requires
        dommap_runs(args, populate_before, populate_after, before, after, event, r),
    ensures
        populate_after == populate_before || event is Enter && r is Call && populate_after == 0,
        event is Enter && r is Call ==> populate_after == 0,
        match event {
            DommapEvent::Enter => step::enters(
                set![
                    args.addr, args.len, args.prot, args.flags, args.vma_flags, args.pgoff,
                    args.populate, args.handled,
                ],
                before,
                after,
                DommapCall::Prepare,
                EINVAL_ADDR,
                r,
            ),
            DommapEvent::Prepared { kind, out, addr, len, pgoff, flags } => after == 1
                && step::sorted(
                kind,
                map![
                    DOMMAP_DONE => Step::Return(out),
                    DOMMAP_REGION => Step::Call(DommapCall::Region { addr, len, pgoff, flags }),
                ],
                Step::Reject(EINVAL_ADDR),
                r,
            ),
            DommapEvent::Mapped { mapped, flags, len } => {
                &&& after == before
                &&& r matches Step::Finish(call, result)
                &&& call == (DommapCall::Populate { mapped, flags, len })
                &&& result == mapped
            },
        },
{
}

/// Installing and populating get the values that preparing left, and the result is what
/// installing gave.
pub proof fn law_dommap_values(
    prepared: DommapEvent,
    addr: u64,
    len: u64,
    pgoff: u64,
    flags: u64,
    out: u64,
    mapped: DommapEvent,
)
    requires
        prepared == (DommapEvent::Prepared { kind: DOMMAP_REGION, out, addr, len, pgoff, flags }),
        dommap_answers(DommapCall::Region { addr, len, pgoff, flags }, mapped),
    ensures
        dommap_next(prepared) == Step::<DommapCall, u64>::Call(
            DommapCall::Region { addr, len, pgoff, flags },
        ),
        dommap_next(mapped) == Step::<DommapCall, u64>::Finish(
            DommapCall::Populate { mapped: mapped->Mapped_mapped, flags, len },
            mapped->Mapped_mapped,
        ),
{
}

/// Finished; the helper gave the result.
pub const MMAPREG_DONE: i32 = 0;

/// Checks passed; install then exit.
pub const MMAPREG_INSTALL: i32 = 1;

/// Set up; try to merge.
pub const MMAPREG_CONT: i32 = 2;

/// Could not merge; make a new mapping.
pub const MMAPREG_NEW: i32 = 3;

/// There is a mapping; complete it.
pub const MMAPREG_COMPLETE: i32 = 4;

/// The helpers of [`rust_mmap_region_dispatch`].
#[derive(Clone, Copy, PartialEq, Eq, Structural, Debug)]
pub enum MmapRegionCall {
    Check,
    /// Install; `writable` is for the step after.
    Install { writable: i32 },
    /// Release a writable mapping of the file, and pass on `mapped`.
    Exit { writable: i32, mapped: u64 },
}

/// What happened since the last step of [`rust_mmap_region_dispatch`].
#[derive(Clone, Copy, PartialEq, Eq, Structural, Debug)]
pub enum MmapRegionEvent {
    Enter,
    /// Checked; `writable` says that the file was counted as mapped writable.
    Checked { kind: i32, writable: i32, out: u64 },
    /// Installing gave `mapped`; `writable` is as it was asked with.
    Installed { writable: i32, mapped: u64 },
}

/// What follows an event of [`rust_mmap_region_dispatch`] once it is entered.
pub open spec fn mmap_region_next(event: MmapRegionEvent) -> Step<MmapRegionCall, u64> {
    match event {
        MmapRegionEvent::Enter => Step::Call(MmapRegionCall::Check),
        MmapRegionEvent::Checked { kind, writable, out } => if kind == MMAPREG_DONE {
            Step::Return(out)
        } else if kind == MMAPREG_INSTALL {
            Step::Call(MmapRegionCall::Install { writable })
        } else {
            Step::Reject(EINVAL_ADDR)
        },
        MmapRegionEvent::Installed { writable, mapped } => Step::Tail(
            MmapRegionCall::Exit { writable, mapped },
        ),
    }
}

/// Whether an event of [`rust_mmap_region_dispatch`] is the outcome of a helper.
pub open spec fn mmap_region_answers(call: MmapRegionCall, event: MmapRegionEvent) -> bool {
    match call {
        MmapRegionCall::Check => event is Checked,
        MmapRegionCall::Install { writable } => event matches MmapRegionEvent::Installed {
            writable: w,
            ..
        } && w == writable,
        MmapRegionCall::Exit { .. } => false,
    }
}

/// What [`rust_mmap_region_dispatch`] does at an event: the flag goes from `before` to
/// `after`, and `r` is next.
pub open spec fn mmap_region_runs(
    vma_flags: u64,
    handled_ptr: u64,
    before: i32,
    after: i32,
    event: MmapRegionEvent,
    r: Step<MmapRegionCall, u64>,
) -> bool {
    match event {
        MmapRegionEvent::Enter => step::begun(
            vma_flags != 0 && handled_ptr != 0,
            MmapRegionCall::Check,
            EINVAL_ADDR,
            before,
            after,
            r,
        ),
        MmapRegionEvent::Checked { .. } => after == 1 && r == mmap_region_next(event),
        MmapRegionEvent::Installed { .. } => after == before && r
            == mmap_region_next(event),
    }
}

/// Sequences `mmap_region`: check, install, then exit. A check that fails skips the
/// exit.
pub fn rust_mmap_region_dispatch(
    vma_flags: u64,
    handled_ptr: u64,
    handled: &mut i32,
    event: MmapRegionEvent,
) -> (r: Step<MmapRegionCall, u64>)
    ensures
        mmap_region_runs(vma_flags, handled_ptr, *old(handled), *final(handled), event, r),
{
    match event {
        MmapRegionEvent::Enter => {
            if vma_flags == 0 || handled_ptr == 0 {
                return Step::Return(EINVAL_ADDR);
            }
            *handled = 0;
            Step::Call(MmapRegionCall::Check)
        },
        MmapRegionEvent::Checked { kind, writable, out } => {
            *handled = 1;
            if kind == MMAPREG_DONE {
                return Step::Return(out);
            }
            if kind != MMAPREG_INSTALL {
                return Step::Reject(EINVAL_ADDR);
            }
            Step::Call(MmapRegionCall::Install { writable })
        },
        MmapRegionEvent::Installed { writable, mapped } => Step::Tail(
            MmapRegionCall::Exit { writable, mapped },
        ),
    }
}

/// [`rust_mmap_region_dispatch`] fails at once on a null pointer and on nothing else. A
/// check that is finished is handed back as it came, without the exit; an install is
/// followed by the exit whatever it gave.
pub proof fn law_mmap_region(
    vma_flags: u64,
    handled_ptr: u64,
    before: i32,
    after: i32,
    event: MmapRegionEvent,
    r: Step<MmapRegionCall, u64>,
)
    requires
        mmap_region_runs(vma_flags, handled_ptr, before, after, event, r),
    ensures
        match event {
            MmapRegionEvent::Enter => step::enters(
                set![vma_flags, handled_ptr],
                before,
                after,
                MmapRegionCall::Check,
                EINVAL_ADDR,
                r,
            ),
            MmapRegionEvent::Checked { kind, writable, out } => after == 1 && step::sorted(
                kind,
                map![
                    MMAPREG_DONE => Step::Return(out),
                    MMAPREG_INSTALL => Step::Call(MmapRegionCall::Install { writable }),
                ],
                Step::Reject(EINVAL_ADDR),
                r,
            ),
            MmapRegionEvent::Installed { writable, mapped } => {
                &&& after == before
                &&& r matches Step::Tail(call)
                &&& call == (MmapRegionCall::Exit { writable, mapped })
            },
        },
{
}

/// After an install the exit helper runs, with what the check and the install gave.
pub proof fn law_mmap_region_exits(writable: i32, out: u64, installed: MmapRegionEvent)
    requires
        mmap_region_answers(MmapRegionCall::Install { writable }, installed),
    ensures
        mmap_region_next(
            MmapRegionEvent::Checked { kind: MMAPREG_INSTALL, writable, out },
        ) == Step::<MmapRegionCall, u64>::Call(MmapRegionCall::Install { writable }),
        mmap_region_next(installed) == Step::<MmapRegionCall, u64>::Tail(
            MmapRegionCall::Exit { writable, mapped: installed->Installed_mapped },
        ),
{
}

/// The helpers of [`rust_mmapreg_inner_dispatch`].
#[derive(Clone, Copy, PartialEq, Eq, Structural, Debug)]
pub enum MmapregCall {
    Setup,
    Merge,
    New,
    /// Complete the mapping; `allocated` tells a new one from a merge.
    Complete { vma: u64, allocated: bool },
    Abort,
    /// Abort and take back the accounting.
    UnacctAbort,
}

/// What happened since the last step of [`rust_mmapreg_inner_dispatch`].
#[derive(Clone, Copy, PartialEq, Eq, Structural, Debug)]
pub enum MmapregEvent {
    Enter,
    SetUp { kind: i32, out: u64 },
    Merged { kind: i32, vma: u64 },
    Made { kind: i32, vma: u64, out: u64 },
}

/// What follows an event of [`rust_mmapreg_inner_dispatch`] once it is entered.
pub open spec fn mmapreg_next(event: MmapregEvent) -> Step<MmapregCall, u64> {
    match event {
        MmapregEvent::Enter => Step::Call(MmapregCall::Setup),
        MmapregEvent::SetUp { kind, out } => if kind == MMAPREG_DONE {
            Step::Finish(MmapregCall::Abort, out)
        } else if kind == MMAPREG_CONT {
            Step::Call(MmapregCall::Merge)
        } else {
            Step::Abort(MmapregCall::Abort, EINVAL_ADDR)
        },
        MmapregEvent::Merged { kind, vma } => if kind == MMAPREG_NEW {
            Step::Call(MmapregCall::New)
        } else if kind == MMAPREG_COMPLETE {
            Step::Tail(MmapregCall::Complete { vma, allocated: false })
        } else {
            Step::Abort(MmapregCall::UnacctAbort, EINVAL_ADDR)
        },
        MmapregEvent::Made { kind, vma, out } => if kind == MMAPREG_DONE {
            Step::Finish(MmapregCall::UnacctAbort, out)
        } else if kind == MMAPREG_COMPLETE {
            Step::Tail(MmapregCall::Complete { vma, allocated: true })
        } else {
            Step::Abort(MmapregCall::UnacctAbort, EINVAL_ADDR)
        },
    }
}

/// What [`rust_mmapreg_inner_dispatch`] does at an event: the flag goes from `before` to
/// `after`, and `r` is next.
pub open spec fn mmapreg_inner_runs(
    map: u64,
    desc: u64,
    handled_ptr: u64,
    before: i32,
    after: i32,
    event: MmapregEvent,
    r: Step<MmapregCall, u64>,
) -> bool {
    match event {
        MmapregEvent::Enter => step::begun(
            map != 0 && desc != 0 && handled_ptr != 0,
            MmapregCall::Setup,
            EINVAL_ADDR,
            before,
            after,
            r,
        ),
        MmapregEvent::SetUp { .. } => after == 1 && r == mmapreg_next(event),
        _ => after == before && r == mmapreg_next(event),
    }
}

/// Sequences `__mmap_region`: set up, merge or make a new mapping, then complete it.
pub fn rust_mmapreg_inner_dispatch(
    map: u64,
    desc: u64,
    handled_ptr: u64,
    handled: &mut i32,
    event: MmapregEvent,
) -> (r: Step<MmapregCall, u64>)
    ensures
        mmapreg_inner_runs(map, desc, handled_ptr, *old(handled), *final(handled), event, r),
{
    match event {
        MmapregEvent::Enter => {
            if map == 0 || desc == 0 || handled_ptr == 0 {
                return Step::Return(EINVAL_ADDR);
            }
            *handled = 0;
            Step::Call(MmapregCall::Setup)
        },
        MmapregEvent::SetUp { kind, out } => {
            *handled = 1;
            if kind == MMAPREG_DONE {
                return Step::Finish(MmapregCall::Abort, out);
            }
            if kind != MMAPREG_CONT {
                return Step::Abort(MmapregCall::Abort, EINVAL_ADDR);
            }
            Step::Call(MmapregCall::Merge)
        },
        MmapregEvent::Merged { kind, vma } => {
            if kind == MMAPREG_NEW {
                Step::Call(MmapregCall::New)
            } else if kind != MMAPREG_COMPLETE {
                Step::Abort(MmapregCall::UnacctAbort, EINVAL_ADDR)
            } else {
                Step::Tail(MmapregCall::Complete { vma, allocated: false })
            }
        },
        MmapregEvent::Made { kind, vma, out } => {
            if kind == MMAPREG_DONE {
                return Step::Finish(MmapregCall::UnacctAbort, out);
            }
            if kind != MMAPREG_COMPLETE {
                return Step::Abort(MmapregCall::UnacctAbort, EINVAL_ADDR);
            }
            Step::Tail(MmapregCall::Complete { vma, allocated: true })
        },
    }
}

/// [`rust_mmapreg_inner_dispatch`] fails at once on a null pointer and on nothing else.
/// Merging is tried before a mapping is made; a failure returns what the helper gave
/// after the abort.
pub proof fn law_mmapreg_inner(
    map: u64,
    desc: u64,
    handled_ptr: u64,
    before: i32,
    after: i32,
    event: MmapregEvent,
    r: Step<MmapregCall, u64>,
)
    requires
        mmapreg_inner_runs(map, desc, handled_ptr, before, after, event, r),
    ensures
        match event {
            MmapregEvent::Enter => step::enters(
                set![map, desc, handled_ptr],
                before,
                after,
                MmapregCall::Setup,
                EINVAL_ADDR,
                r,
            ),
            MmapregEvent::SetUp { kind, out } => after == 1 && step::sorted(
                kind,
                map![
                    MMAPREG_DONE => Step::Finish(MmapregCall::Abort, out),
                    MMAPREG_CONT => Step::Call(MmapregCall::Merge),
                ],
                Step::Abort(MmapregCall::Abort, EINVAL_ADDR),
                r,
            ),
            MmapregEvent::Merged { kind, vma } => after == before && step::sorted(
                kind,
                map![
                    MMAPREG_NEW => Step::Call(MmapregCall::New),
                    MMAPREG_COMPLETE => Step::Tail(MmapregCall::Complete { vma, allocated: false }),
                ],
                Step::Abort(MmapregCall::UnacctAbort, EINVAL_ADDR),
                r,
            ),
            MmapregEvent::Made { kind, vma, out } => after == before && step::sorted(
                kind,
                map![
                    MMAPREG_DONE => Step::Finish(MmapregCall::UnacctAbort, out),
                    MMAPREG_COMPLETE => Step::Tail(MmapregCall::Complete { vma, allocated: true }),
                ],
                Step::Abort(MmapregCall::UnacctAbort, EINVAL_ADDR),
                r,
            ),
        },
{
}

/// Once set up, a region is completed or aborted with its accounting taken back; a
/// set-up that fails is aborted without. The mapping that is completed is the one
/// that merging or making gave.
pub proof fn law_mmapreg_ends(event: MmapregEvent)
    requires
        !(event is Enter),
    ensures
        match mmapreg_next(event) {
            Step::Finish(call, _) | Step::Abort(call, _) => call == if event is SetUp {
                MmapregCall::Abort
            } else {
                MmapregCall::UnacctAbort
            },
            Step::Tail(call) => match event {
                MmapregEvent::Merged { vma, .. } => call == (MmapregCall::Complete {
                    vma,
                    allocated: false,
                }),
                MmapregEvent::Made { vma, .. } => call == (MmapregCall::Complete {
                    vma,
                    allocated: true,
                }),
                _ => false,
            },
            Step::Call(call) => call is Merge || call is New,
            _ => false,
        },
{
}

/// Finished; the helper gave the result.
pub const MNVA_DONE: i32 = 0;

/// Has a file; map it, then store.
pub const MNVA_FILE: i32 = 1;

/// Shared and anonymous; set up shared memory, then store.
pub const MNVA_SHMEM: i32 = 2;

/// Private and anonymous; store.
pub const MNVA_STORE: i32 = 3;

/// The helpers of [`rust_mnva_dispatch`].
#[derive(Clone, Copy, PartialEq, Eq, Structural, Debug)]
pub enum MnvaCall {
    Classify,
    File,
    Shmem,
    Store,
    Abort,
}

/// What happened since the last step of [`rust_mnva_dispatch`].
#[derive(Clone, Copy, PartialEq, Eq, Structural, Debug)]
pub enum MnvaEvent {
    Enter,
    Classified { kind: i32, out: i32 },
    /// Mapping the file or setting up shared memory gave this.
    CalledBack { err: i32 },
}

/// What [`rust_mnva_dispatch`] does at an event: the flag goes from `before` to
/// `after`, and `r` is next.
pub open spec fn mnva_runs(
    s: u64,
    handled_ptr: u64,
    before: i32,
    after: i32,
    event: MnvaEvent,
    r: Step<MnvaCall, i32>,
) -> bool {
    match event {
        MnvaEvent::Enter => step::begun(
            s != 0 && handled_ptr != 0,
            MnvaCall::Classify,
            EINVAL,
            before,
            after,
            r,
        ),
        MnvaEvent::Classified { kind, out } => after == 1 && r == if kind
            == MNVA_DONE {
            Step::Return(out)
        } else if kind == MNVA_FILE {
            Step::Call(MnvaCall::File)
        } else if kind == MNVA_SHMEM {
            Step::Call(MnvaCall::Shmem)
        } else if kind == MNVA_STORE {
            Step::Tail(MnvaCall::Store)
        } else {
            Step::Abort(MnvaCall::Abort, EINVAL)
        },
        MnvaEvent::CalledBack { err } => after == before && r == if err
            != 0 {
            Step::Finish(MnvaCall::Abort, err)
        } else {
            Step::Tail(MnvaCall::Store)
        },
    }
}

/// Sequences `__mmap_new_vma`: map the file or set up shared memory, then store. An
/// unknown kind or a failure frees the mapping.
pub fn rust_mnva_dispatch(s: u64, handled_ptr: u64, handled: &mut i32, event: MnvaEvent) -> (r:
    Step<MnvaCall, i32>)
    ensures
        mnva_runs(s, handled_ptr, *old(handled), *final(handled), event, r),
{
    match event {
        MnvaEvent::Enter => {
            if s == 0 || handled_ptr == 0 {
                return Step::Return(EINVAL);
            }
            *handled = 0;
            Step::Call(MnvaCall::Classify)
        },
        MnvaEvent::Classified { kind, out } => {
            *handled = 1;
            if kind == MNVA_DONE {
                Step::Return(out)
            } else if kind == MNVA_FILE {
                Step::Call(MnvaCall::File)
            } else if kind == MNVA_SHMEM {
                Step::Call(MnvaCall::Shmem)
            } else if kind == MNVA_STORE {
                Step::Tail(MnvaCall::Store)
            } else {
                Step::Abort(MnvaCall::Abort, EINVAL)
            }
        },
        MnvaEvent::CalledBack { err } => {
            if err != 0 {
                Step::Finish(MnvaCall::Abort, err)
            } else {
                Step::Tail(MnvaCall::Store)
            }
        },
    }
}

/// [`rust_mnva_dispatch`] fails at once on a null pointer and on nothing else. A
/// mapping is stored once its file or its shared memory is set up, or at once if it has
/// neither; an error of theirs frees the mapping and is returned.
pub proof fn law_mnva(
    s: u64,
    handled_ptr: u64,
    before: i32,
    after: i32,
    event: MnvaEvent,
    r: Step<MnvaCall, i32>,
)
    requires
        mnva_runs(s, handled_ptr, before, after, event, r),
    ensures
        match event {
            MnvaEvent::Enter => step::enters(
                set![s, handled_ptr],
                before,
                after,
                MnvaCall::Classify,
                EINVAL,
                r,
            ),
            MnvaEvent::Classified { kind, out } => after == 1 && step::sorted(
                kind,
                map![
                    MNVA_DONE => Step::Return(out),
                    MNVA_FILE => Step::Call(MnvaCall::File),
                    MNVA_SHMEM => Step::Call(MnvaCall::Shmem),
                    MNVA_STORE => Step::Tail(MnvaCall::Store),
                ],
                Step::Abort(MnvaCall::Abort, EINVAL),
                r,
            ),
            MnvaEvent::CalledBack { err } => {
                &&& after == before
                &&& r is Tail <==> err == 0
                &&& r is Finish <==> err != 0
                &&& r matches Step::Tail(call) ==> call == MnvaCall::Store
                &&& r matches Step::Finish(call, result) ==> call == MnvaCall::Abort && result
                    == err
            },
        },
{
}

/// Finished; the helper gave the result.
pub const RFP_DONE: i32 = 0;

/// Range and shared mapping found; security check outside the lock.
pub const RFP_SEC: i32 = 1;

/// Security check passed; lock and map.
pub const RFP_APPLY: i32 = 2;

/// The helpers of [`rust_rfp_dispatch`].
#[derive(Clone, Copy, PartialEq, Eq, Structural, Debug)]
pub enum RfpCall {
    Classify,
    Security,
    Apply,
    Abort,
}

/// What happened since the last step of [`rust_rfp_dispatch`].
#[derive(Clone, Copy, PartialEq, Eq, Structural, Debug)]
pub enum RfpEvent {
    Enter,
    Classified { kind: i32, out: i64 },
    Secured { kind: i32, out: i64 },
}

/// What [`rust_rfp_dispatch`] does at an event: the flag goes from `before` to
/// `after`, and `r` is next.
pub open spec fn rfp_runs(
    s: u64,
    handled_ptr: u64,
    before: i32,
    after: i32,
    event: RfpEvent,
    r: Step<RfpCall, i64>,
) -> bool {
    match event {
        RfpEvent::Enter => step::begun(
            s != 0 && handled_ptr != 0,
            RfpCall::Classify,
            EINVAL_LONG,
            before,
            after,
            r,
        ),
        RfpEvent::Classified { kind, out } => after == 1 && r == if kind == RFP_DONE {
            Step::Return(out)
        } else if kind == RFP_SEC {
            Step::Call(RfpCall::Security)
        } else {
            Step::Abort(RfpCall::Abort, EINVAL_LONG)
        },
        RfpEvent::Secured { kind, out } => after == before && r == if kind
            == RFP_DONE {
            Step::Return(out)
        } else if kind == RFP_APPLY {
            Step::Tail(RfpCall::Apply)
        } else {
            Step::Abort(RfpCall::Abort, EINVAL_LONG)
        },
    }
}

/// Sequences `remap_file_pages`: find the mapping, check security, then map. An
/// unknown kind drops a leftover file and lock.
pub fn rust_rfp_dispatch(s: u64, handled_ptr: u64, handled: &mut i32, event: RfpEvent) -> (r: Step<
    RfpCall,
    i64,
>)
    ensures
        rfp_runs(s, handled_ptr, *old(handled), *final(handled), event, r),
{
    match event {
        RfpEvent::Enter => {
            if s == 0 || handled_ptr == 0 {
                return Step::Return(EINVAL_LONG);
            }
            *handled = 0;
            Step::Call(RfpCall::Classify)
        },
        RfpEvent::Classified { kind, out } => {
            *handled = 1;
            if kind == RFP_DONE {
                Step::Return(out)
            } else if kind == RFP_SEC {
                Step::Call(RfpCall::Security)
            } else {
                Step::Abort(RfpCall::Abort, EINVAL_LONG)
            }
        },
        RfpEvent::Secured { kind, out } => {
            if kind == RFP_DONE {
                Step::Return(out)
            } else if kind == RFP_APPLY {
                Step::Tail(RfpCall::Apply)
            } else {
                Step::Abort(RfpCall::Abort, EINVAL_LONG)
            }
        },
    }
}

/// [`rust_rfp_dispatch`] fails at once on a null pointer and on nothing else. Every
/// answer that is finished is handed back as it came; the range is mapped only once
/// security was asked.
pub proof fn law_rfp(
    s: u64,
    handled_ptr: u64,
    before: i32,
    after: i32,
    event: RfpEvent,
    r: Step<RfpCall, i64>,
)
    requires
        rfp_runs(s, handled_ptr, before, after, event, r),
    ensures
        match event {
            RfpEvent::Enter => step::enters(
                set![s, handled_ptr],
                before,
                after,
                RfpCall::Classify,
                EINVAL_LONG,
                r,
            ),
            RfpEvent::Classified { kind, out } => after == 1 && step::sorted(
                kind,
                map![
                    RFP_DONE => Step::Return(out),
                    RFP_SEC => Step::Call(RfpCall::Security),
                ],
                Step::Abort(RfpCall::Abort, EINVAL_LONG),
                r,
            ),
            RfpEvent::Secured { kind, out } => after == before && step::sorted(
                kind,
                map![
                    RFP_DONE => Step::Return(out),
                    RFP_APPLY => Step::Tail(RfpCall::Apply),
                ],
                Step::Abort(RfpCall::Abort, EINVAL_LONG),
                r,
            ),
        },
{
}

/// Finished; the helper gave the result.
pub const ISM_DONE: i32 = 0;

/// Allocated; insert.
pub const ISM_LINK: i32 = 1;

/// The helpers of [`rust_ism_dispatch`].
#[derive(Clone, Copy, PartialEq, Eq, Structural, Debug)]
pub enum IsmCall {
    Classify,
    Link,
    Abort,
}

/// What [`rust_ism_dispatch`] does at an event: the flag goes from `before` to
/// `after`, and `r` is next.
pub open spec fn ism_runs(
    s: u64,
    handled_ptr: u64,
    before: i32,
    after: i32,
    event: Event<u64>,
    r: Step<IsmCall, u64>,
) -> bool {
    match event {
        Event::Enter => step::begun(
            s != 0 && handled_ptr != 0,
            IsmCall::Classify,
            EINVAL_ADDR,
            before,
            after,
            r,
        ),
        Event::Classified { kind, out } => after == 1 && r == if kind == ISM_DONE {
            Step::Return(out)
        } else if kind == ISM_LINK {
            Step::Tail(IsmCall::Link)
        } else {
            Step::Abort(IsmCall::Abort, EINVAL_ADDR)
        },
    }
}

/// Sequences `__install_special_mapping`: allocate, then insert. An unknown kind frees
/// a leftover mapping.
pub fn rust_ism_dispatch(
    s: u64,
    handled_ptr: u64,
    handled: &mut i32,
    event: Event<u64>,
) -> (r: Step<IsmCall, u64>)
    ensures
        ism_runs(s, handled_ptr, *old(handled), *final(handled), event, r),
{
    match event {
        Event::Enter => {
            if s == 0 || handled_ptr == 0 {
                return Step::Return(EINVAL_ADDR);
            }
            *handled = 0;
            Step::Call(IsmCall::Classify)
        },
        Event::Classified { kind, out } => {
            *handled = 1;
            if kind == ISM_DONE {
                Step::Return(out)
            } else if kind == ISM_LINK {
                Step::Tail(IsmCall::Link)
            } else {
                Step::Abort(IsmCall::Abort, EINVAL_ADDR)
            }
        },
    }
}

/// [`rust_ism_dispatch`] fails at once on a null pointer and on nothing else. Once
/// `Classify` has answered it goes by the kind: `ISM_DONE` hands back what the helper
/// gave, `ISM_LINK` runs `Link`, and any other is refused and cleaned up by `Abort`.
pub proof fn law_ism(
    s: u64,
    handled_ptr: u64,
    before: i32,
    after: i32,
    event: Event<u64>,
    r: Step<IsmCall, u64>,
)
    requires
        ism_runs(s, handled_ptr, before, after, event, r),
    ensures
        match event {
            Event::Enter => step::enters(
                set![s, handled_ptr],
                before,
                after,
                IsmCall::Classify,
                EINVAL_ADDR,
                r,
            ),
            Event::Classified { kind, out } => after == 1 && step::sorted(
                kind,
                map![
                    ISM_DONE => Step::Return(out),
                    ISM_LINK => Step::Tail(IsmCall::Link),
                ],
                Step::Abort(IsmCall::Abort, EINVAL_ADDR),
                r,
            ),
        },
{
}

/// Finished; the helper gave the result.
pub const MSET_DONE: i32 = 0;

/// Mappings overlap; gather them.
pub const MSET_GATHER: i32 = 1;

/// No overlap, or gathered; check limits and clean up.
pub const MSET_LIMITS: i32 = 2;

/// The helpers of [`rust_mset_dispatch`].
#[derive(Clone, Copy, PartialEq, Eq, Structural, Debug)]
pub enum MsetCall {
    Classify,
    Gather,
    Limits,
    Abort,
}

/// What happened since the last step of [`rust_mset_dispatch`].
#[derive(Clone, Copy, PartialEq, Eq, Structural, Debug)]
pub enum MsetEvent {
    Enter,
    Classified { kind: i32, out: i32 },
    Gathered { err: i32 },
}

/// What [`rust_mset_dispatch`] does at an event: the flag goes from `before` to
/// `after`, and `r` is next.
pub open spec fn mset_runs(
    s: u64,
    handled_ptr: u64,
    before: i32,
    after: i32,
    event: MsetEvent,
    r: Step<MsetCall, i32>,
) -> bool {
    match event {
        MsetEvent::Enter => step::begun(
            s != 0 && handled_ptr != 0,
            MsetCall::Classify,
            EINVAL,
            before,
            after,
            r,
        ),
        MsetEvent::Classified { kind, out } => after == 1 && r == if kind
            == MSET_DONE {
            Step::Return(out)
        } else if kind == MSET_GATHER {
            Step::Call(MsetCall::Gather)
        } else if kind == MSET_LIMITS {
            Step::Tail(MsetCall::Limits)
        } else {
            Step::Abort(MsetCall::Abort, EINVAL)
        },
        MsetEvent::Gathered { err } => after == before && r == if err != 0 {
            Step::Return(err)
        } else {
            Step::Tail(MsetCall::Limits)
        },
    }
}

/// Sequences `__mmap_setup`: gather what overlaps, then check limits.
pub fn rust_mset_dispatch(s: u64, handled_ptr: u64, handled: &mut i32, event: MsetEvent) -> (r:
    Step<MsetCall, i32>)
    ensures
        mset_runs(s, handled_ptr, *old(handled), *final(handled), event, r),
{
    match event {
        MsetEvent::Enter => {
            if s == 0 || handled_ptr == 0 {
                return Step::Return(EINVAL);
            }
            *handled = 0;
            Step::Call(MsetCall::Classify)
        },
        MsetEvent::Classified { kind, out } => {
            *handled = 1;
            if kind == MSET_DONE {
                Step::Return(out)
            } else if kind == MSET_GATHER {
                Step::Call(MsetCall::Gather)
            } else if kind == MSET_LIMITS {
                Step::Tail(MsetCall::Limits)
            } else {
                Step::Abort(MsetCall::Abort, EINVAL)
            }
        },
        MsetEvent::Gathered { err } => {
            if err != 0 {
                Step::Return(err)
            } else {
                Step::Tail(MsetCall::Limits)
            }
        },
    }
}

/// [`rust_mset_dispatch`] fails at once on a null pointer and on nothing else. What
/// overlaps is gathered before the limits are checked, and an error of gathering is
/// returned as it came.
pub proof fn law_mset(
    s: u64,
    handled_ptr: u64,
    before: i32,
    after: i32,
    event: MsetEvent,
    r: Step<MsetCall, i32>,
)
    requires
        mset_runs(s, handled_ptr, before, after, event, r),
    ensures
        match event {
            MsetEvent::Enter => step::enters(
                set![s, handled_ptr],
                before,
                after,
                MsetCall::Classify,
                EINVAL,
                r,
            ),
            MsetEvent::Classified { kind, out } => after == 1 && step::sorted(
                kind,
                map![
                    MSET_DONE => Step::Return(out),
                    MSET_GATHER => Step::Call(MsetCall::Gather),
                    MSET_LIMITS => Step::Tail(MsetCall::Limits),
                ],
                Step::Abort(MsetCall::Abort, EINVAL),
                r,
            ),
            MsetEvent::Gathered { err } => {
                &&& after == before
                &&& r is Tail <==> err == 0
                &&& r is Return <==> err != 0
                &&& r matches Step::Tail(call) ==> call == MsetCall::Limits
                &&& r matches Step::Return(result) ==> result == err
            },
        },
{
}

/// Finished; the helper gave the result.
pub const MNF_DONE: i32 = 0;

/// The file has its own way to map; call it.
pub const MNF_MMAP: i32 = 1;

/// The helpers of [`rust_mnf_dispatch`].
#[derive(Clone, Copy, PartialEq, Eq, Structural, Debug)]
pub enum MnfCall {
    Classify,
    Mmap,
    Abort,
}

/// What [`rust_mnf_dispatch`] does at an event: the flag goes from `before` to
/// `after`, and `r` is next.
pub open spec fn mnf_runs(
    s: u64,
    handled_ptr: u64,
    before: i32,
    after: i32,
    event: Event<i32>,
    r: Step<MnfCall, i32>,
) -> bool {
    match event {
        Event::Enter => step::begun(
            s != 0 && handled_ptr != 0,
            MnfCall::Classify,
            EINVAL,
            before,
            after,
            r,
        ),
        Event::Classified { kind, out } => after == 1 && r == if kind == MNF_DONE {
            Step::Return(out)
        } else if kind == MNF_MMAP {
            Step::Tail(MnfCall::Mmap)
        } else {
            Step::Abort(MnfCall::Abort, EINVAL)
        },
    }
}

/// Sequences `__mmap_new_file_vma`: attach the file, then map it. An unknown kind drops
/// a leftover file reference.
pub fn rust_mnf_dispatch(
    s: u64,
    handled_ptr: u64,
    handled: &mut i32,
    event: Event<i32>,
) -> (r: Step<MnfCall, i32>)
    ensures
        mnf_runs(s, handled_ptr, *old(handled), *final(handled), event, r),
{
    match event {
        Event::Enter => {
            if s == 0 || handled_ptr == 0 {
                return Step::Return(EINVAL);
            }
            *handled = 0;
            Step::Call(MnfCall::Classify)
        },
        Event::Classified { kind, out } => {
            *handled = 1;
            if kind == MNF_DONE {
                Step::Return(out)
            } else if kind == MNF_MMAP {
                Step::Tail(MnfCall::Mmap)
            } else {
                Step::Abort(MnfCall::Abort, EINVAL)
            }
        },
    }
}

/// [`rust_mnf_dispatch`] fails at once on a null pointer and on nothing else. Once
/// `Classify` has answered it goes by the kind: `MNF_DONE` hands back what the helper
/// gave, `MNF_MMAP` runs `Mmap`, and any other is refused and cleaned up by `Abort`.
pub proof fn law_mnf(
    s: u64,
    handled_ptr: u64,
    before: i32,
    after: i32,
    event: Event<i32>,
    r: Step<MnfCall, i32>,
)
    requires
        mnf_runs(s, handled_ptr, before, after, event, r),
    ensures
        match event {
            Event::Enter => step::enters(
                set![s, handled_ptr],
                before,
                after,
                MnfCall::Classify,
                EINVAL,
                r,
            ),
            Event::Classified { kind, out } => after == 1 && step::sorted(
                kind,
                map![
                    MNF_DONE => Step::Return(out),
                    MNF_MMAP => Step::Tail(MnfCall::Mmap),
                ],
                Step::Abort(MnfCall::Abort, EINVAL),
                r,
            ),
        },
{
}

/// Finished; the helper gave the result.
pub const KMP_DONE: i32 = 0;

/// File or anonymous memory set up; map.
pub const KMP_MMAP: i32 = 1;

/// The helpers of [`rust_kmp_dispatch`].
#[derive(Clone, Copy, PartialEq, Eq, Structural, Debug)]
pub enum KmpCall {
    Classify,
    Mmap,
    Abort,
}

/// What [`rust_kmp_dispatch`] does at an event: the flag goes from `before` to
/// `after`, and `r` is next.
pub open spec fn kmp_runs(
    s: u64,
    handled_ptr: u64,
    before: i32,
    after: i32,
    event: Event<u64>,
    r: Step<KmpCall, u64>,
) -> bool {
    match event {
        Event::Enter => step::begun(
            s != 0 && handled_ptr != 0,
            KmpCall::Classify,
            EINVAL_ADDR,
            before,
            after,
            r,
        ),
        Event::Classified { kind, out } => after == 1 && r == if kind == KMP_DONE {
            Step::Return(out)
        } else if kind == KMP_MMAP {
            Step::Tail(KmpCall::Mmap)
        } else {
            Step::Abort(KmpCall::Abort, EINVAL_ADDR)
        },
    }
}

/// Sequences `ksys_mmap_pgoff`: look up the file, then map. An unknown kind drops a
/// leftover file reference.
pub fn rust_kmp_dispatch(
    s: u64,
    handled_ptr: u64,
    handled: &mut i32,
    event: Event<u64>,
) -> (r: Step<KmpCall, u64>)
    ensures
        kmp_runs(s, handled_ptr, *old(handled), *final(handled), event, r),
{
    match event {
        Event::Enter => {
            if s == 0 || handled_ptr == 0 {
                return Step::Return(EINVAL_ADDR);
            }
            *handled = 0;
            Step::Call(KmpCall::Classify)
        },
        Event::Classified { kind, out } => {
            *handled = 1;
            if kind == KMP_DONE {
                Step::Return(out)
            } else if kind == KMP_MMAP {
                Step::Tail(KmpCall::Mmap)
            } else {
                Step::Abort(KmpCall::Abort, EINVAL_ADDR)
            }
        },
    }
}

/// [`rust_kmp_dispatch`] fails at once on a null pointer and on nothing else. Once
/// `Classify` has answered it goes by the kind: `KMP_DONE` hands back what the helper
/// gave, `KMP_MMAP` runs `Mmap`, and any other is refused and cleaned up by `Abort`.
pub proof fn law_kmp(
    s: u64,
    handled_ptr: u64,
    before: i32,
    after: i32,
    event: Event<u64>,
    r: Step<KmpCall, u64>,
)
    requires
        kmp_runs(s, handled_ptr, before, after, event, r),
    ensures
        match event {
            Event::Enter => step::enters(
                set![s, handled_ptr],
                before,
                after,
                KmpCall::Classify,
                EINVAL_ADDR,
                r,
            ),
            Event::Classified { kind, out } => after == 1 && step::sorted(
                kind,
                map![
                    KMP_DONE => Step::Return(out),
                    KMP_MMAP => Step::Tail(KmpCall::Mmap),
                ],
                Step::Abort(KmpCall::Abort, EINVAL_ADDR),
                r,
            ),
        },
{
}

} // verus!
