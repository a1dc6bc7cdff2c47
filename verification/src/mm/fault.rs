//! Page-fault sequencers.
//!
//! `handle_pte_fault` is sequenced here: missing, swap, NUMA, read-write-protect,
//! write-protect and access-flag update. So are private anonymous faults, reading
//! (zero page) and writing, and copy on write. Page-table lookup and encoding,
//! reverse mapping and copying from user memory are helpers.

use vstd::prelude::*;
use crate::mm::step::{Event, Step};
use crate::mm::step;

verus! {

/// The fault failed for want of memory.
pub const VM_FAULT_OOM: u32 = 1;

/// Finished; the helper gave the result.
pub const PTE_DONE: i32 = 0;

/// No entry: anonymous or file fault.
pub const PTE_MISSING: i32 = 1;

/// Entry not present: swap, migration or marker.
pub const PTE_SWAP: i32 = 2;

/// Read-write-protected entry.
pub const PTE_RWP: i32 = 3;

/// NUMA hinting fault.
pub const PTE_NUMA: i32 = 4;

/// Present entry written without permission; its lock is held.
pub const PTE_WP: i32 = 5;

/// Finished; the helper gave the result.
pub const WP_DONE: i32 = 0;

/// Shared, without a page; the entry's lock is held.
pub const WP_SHARED_PFN: i32 = 1;

/// Shared file page; the entry's lock is held.
pub const WP_SHARED: i32 = 2;

/// Exclusive anonymous page: reuse in place; the entry's lock is held.
pub const WP_REUSE: i32 = 3;

/// Must copy; the lock is dropped and an old page is referenced.
pub const WP_COPY: i32 = 4;

/// What is logged when the sequencers take over.
pub const ANNOUNCEMENT: &'static str =
    "rust-fault: PTE sequencer and anonymous/COW handler active\n";

/// The message to log when the sequencers take over.
pub fn announce() -> (r: &'static str)
    ensures
        r == ANNOUNCEMENT,
{
    ANNOUNCEMENT
}

/// The helpers of [`rust_handle_pte_fault`].
#[derive(Clone, Copy, PartialEq, Eq, Structural, Debug)]
pub enum PteCall {
    Classify,
    IsAnonymous,
    MissingAnon,
    MissingFile,
    SwapPage,
    UffdRwp,
    NumaPage,
    WpPage,
}

/// What happened since the last step of [`rust_handle_pte_fault`].
#[derive(Clone, Copy, PartialEq, Eq, Structural, Debug)]
pub enum PteEvent {
    Enter,
    Classified { kind: i32, out: u32 },
    /// Asked whether the mapping is anonymous: not 0 is yes.
    Anonymous { yes: i32 },
}

/// What [`rust_handle_pte_fault`] does at an event: the flag goes from `before` to
/// `after`, and `r` is next.
pub open spec fn pte_fault_runs(
    vmf: u64,
    handled_ptr: u64,
    before: i32,
    after: i32,
    event: PteEvent,
    r: Step<PteCall, u32>,
) -> bool {
    match event {
        PteEvent::Enter => step::begun(
            vmf != 0 && handled_ptr != 0,
            PteCall::Classify,
            VM_FAULT_OOM,
            before,
            after,
            r,
        ),
        PteEvent::Classified { kind, out } => after == 1 && r == if kind
            == PTE_DONE {
            Step::Return(out)
        } else if kind == PTE_MISSING {
            Step::Call(PteCall::IsAnonymous)
        } else if kind == PTE_SWAP {
            Step::Tail(PteCall::SwapPage)
        } else if kind == PTE_RWP {
            Step::Tail(PteCall::UffdRwp)
        } else if kind == PTE_NUMA {
            Step::Tail(PteCall::NumaPage)
        } else if kind == PTE_WP {
            Step::Tail(PteCall::WpPage)
        } else {
            Step::Reject(0u32)
        },
        PteEvent::Anonymous { yes } => after == before && r == if yes != 0 {
            Step::<PteCall, u32>::Tail(PteCall::MissingAnon)
        } else {
            Step::Tail(PteCall::MissingFile)
        },
    }
}

/// Sequences `handle_pte_fault` by the kind of the page-table entry.
pub fn rust_handle_pte_fault(vmf: u64, handled_ptr: u64, handled: &mut i32, event: PteEvent) -> (r:
    Step<PteCall, u32>)
    ensures
        pte_fault_runs(vmf, handled_ptr, *old(handled), *final(handled), event, r),
{
    match event {
        PteEvent::Enter => {
            if vmf == 0 || handled_ptr == 0 {
                return Step::Return(VM_FAULT_OOM);
            }
            *handled = 0;
            Step::Call(PteCall::Classify)
        },
        PteEvent::Classified { kind, out } => {
            *handled = 1;
            if kind == PTE_DONE {
                Step::Return(out)
            } else if kind == PTE_MISSING {
                Step::Call(PteCall::IsAnonymous)
            } else if kind == PTE_SWAP {
                Step::Tail(PteCall::SwapPage)
            } else if kind == PTE_RWP {
                Step::Tail(PteCall::UffdRwp)
            } else if kind == PTE_NUMA {
                Step::Tail(PteCall::NumaPage)
            } else if kind == PTE_WP {
                Step::Tail(PteCall::WpPage)
            } else {
                Step::Reject(0)
            }
        },
        PteEvent::Anonymous { yes } => {
            if yes != 0 {
                Step::Tail(PteCall::MissingAnon)
            } else {
                Step::Tail(PteCall::MissingFile)
            }
        },
    }
}

/// [`rust_handle_pte_fault`] fails at once on a null pointer and on nothing else. Each
/// kind of entry has its own handler, and a missing one is handled by whether its
/// mapping is anonymous.
pub proof fn law_pte_fault(
    vmf: u64,
    handled_ptr: u64,
    before: i32,
    after: i32,
    event: PteEvent,
    r: Step<PteCall, u32>,
)
    requires
        pte_fault_runs(vmf, handled_ptr, before, after, event, r),
    ensures
        match event {
            PteEvent::Enter => step::enters(
                set![vmf, handled_ptr],
                before,
                after,
                PteCall::Classify,
                VM_FAULT_OOM,
                r,
            ),
            PteEvent::Classified { kind, out } => after == 1 && step::sorted(
                kind,
                map![
                    PTE_DONE => Step::Return(out),
                    PTE_MISSING => Step::Call(PteCall::IsAnonymous),
                    PTE_SWAP => Step::Tail(PteCall::SwapPage),
                    PTE_RWP => Step::Tail(PteCall::UffdRwp),
                    PTE_NUMA => Step::Tail(PteCall::NumaPage),
                    PTE_WP => Step::Tail(PteCall::WpPage),
                ],
                Step::Reject(0u32),
                r,
            ),
            PteEvent::Anonymous { yes } => {
                &&& after == before
                &&& r is Tail
                &&& r matches Step::Tail(call) ==> (call == PteCall::MissingAnon <==> yes != 0)
                &&& r matches Step::Tail(call) ==> (call == PteCall::MissingFile <==> yes == 0)
            },
        },
{
}

/// The helpers of [`rust_wp_dispatch`].
#[derive(Clone, Copy, PartialEq, Eq, Structural, Debug)]
pub enum WpCall {
    Classify,
    PfnShared,
    PageShared,
    Reuse,
    DoCopy,
}

/// What [`rust_wp_dispatch`] does at an event: the flag goes from `before` to
/// `after`, and `r` is next.
pub open spec fn wp_runs(
    vmf: u64,
    handled_ptr: u64,
    before: i32,
    after: i32,
    event: Event<u32>,
    r: Step<WpCall, u32>,
) -> bool {
    match event {
        Event::Enter => step::begun(
            vmf != 0 && handled_ptr != 0,
            WpCall::Classify,
            VM_FAULT_OOM,
            before,
            after,
            r,
        ),
        Event::Classified { kind, out } => after == 1 && r == if kind == WP_DONE {
            Step::Return(out)
        } else if kind == WP_SHARED_PFN {
            Step::Tail(WpCall::PfnShared)
        } else if kind == WP_SHARED {
            Step::Tail(WpCall::PageShared)
        } else if kind == WP_REUSE {
            Step::Finish(WpCall::Reuse, 0u32)
        } else if kind == WP_COPY {
            Step::Tail(WpCall::DoCopy)
        } else {
            Step::Reject(0u32)
        },
    }
}

/// Sequences `do_wp_page`: share, reuse in place or copy.
pub fn rust_wp_dispatch(vmf: u64, handled_ptr: u64, handled: &mut i32, event: Event<u32>) -> (r:
    Step<WpCall, u32>)
    ensures
        wp_runs(vmf, handled_ptr, *old(handled), *final(handled), event, r),
{
    match event {
        Event::Enter => {
            if vmf == 0 || handled_ptr == 0 {
                return Step::Return(VM_FAULT_OOM);
            }
            *handled = 0;
            Step::Call(WpCall::Classify)
        },
        Event::Classified { kind, out } => {
            *handled = 1;
            if kind == WP_DONE {
                Step::Return(out)
            } else if kind == WP_SHARED_PFN {
                Step::Tail(WpCall::PfnShared)
            } else if kind == WP_SHARED {
                Step::Tail(WpCall::PageShared)
            } else if kind == WP_REUSE {
                Step::Finish(WpCall::Reuse, 0)
            } else if kind == WP_COPY {
                Step::Tail(WpCall::DoCopy)
            } else {
                Step::Reject(0)
            }
        },
    }
}

/// [`rust_wp_dispatch`] fails at once on a null pointer and on nothing else. Once
/// `Classify` has answered it goes by the kind: `WP_DONE` hands back what the helper
/// gave, `WP_SHARED_PFN` runs `PfnShared`, `WP_SHARED` runs `PageShared`, `WP_REUSE`
/// runs `Reuse` and ends it, `WP_COPY` runs `DoCopy`, and any other is refused.
pub proof fn law_wp(
    vmf: u64,
    handled_ptr: u64,
    before: i32,
    after: i32,
    event: Event<u32>,
    r: Step<WpCall, u32>,
)
    requires
        wp_runs(vmf, handled_ptr, before, after, event, r),
    ensures
        match event {
            Event::Enter => step::enters(
                set![vmf, handled_ptr],
                before,
                after,
                WpCall::Classify,
                VM_FAULT_OOM,
                r,
            ),
            Event::Classified { kind, out } => after == 1 && step::sorted(
                kind,
                map![
                    WP_DONE => Step::Return(out),
                    WP_SHARED_PFN => Step::Tail(WpCall::PfnShared),
                    WP_SHARED => Step::Tail(WpCall::PageShared),
                    WP_REUSE => Step::Finish(WpCall::Reuse, 0u32),
                    WP_COPY => Step::Tail(WpCall::DoCopy),
                ],
                Step::Reject(0u32),
                r,
            ),
        },
{
}

/// The helpers of [`rust_do_anonymous_page`].
#[derive(Clone, Copy, PartialEq, Eq, Structural, Debug)]
pub enum AnonCall {
    PteAlloc,
    UseZeropage,
    InstallZeropage,
    WritePrepare,
    AllocFolio,
    Uptodate { folio: u64 },
    InstallFolio { folio: u64 },
}

/// What happened since the last step of [`rust_do_anonymous_page`].
#[derive(Clone, Copy, PartialEq, Eq, Structural, Debug)]
pub enum AnonEvent {
    Enter,
    /// The page table was asked for; on an error `out` is the result.
    PteAlloced { err: i32, out: u32 },
    /// Asked whether to map the zero page: not 0 is yes.
    UsesZeropage { yes: i32 },
    ZeropageInstalled { ret: u32 },
    /// Prepared to write; on an error `out` is the result.
    WritePrepared { err: i32, out: u32 },
    /// A folio was asked for; 0 is none.
    FolioAlloced { folio: u64 },
    /// The folio's contents are marked valid.
    MarkedUptodate { folio: u64 },
    FolioInstalled { ret: u32 },
}

/// What follows an event of [`rust_do_anonymous_page`] once it is entered.
pub open spec fn anon_next(event: AnonEvent) -> Step<AnonCall, u32> {
    match event {
        AnonEvent::Enter => Step::Call(AnonCall::PteAlloc),
        AnonEvent::PteAlloced { err, out } => if err != 0 {
            Step::Return(out)
        } else {
            Step::Call(AnonCall::UseZeropage)
        },
        AnonEvent::UsesZeropage { yes } => if yes != 0 {
            Step::Call(AnonCall::InstallZeropage)
        } else {
            Step::Call(AnonCall::WritePrepare)
        },
        AnonEvent::ZeropageInstalled { ret } => Step::Return(ret),
        AnonEvent::WritePrepared { err, out } => if err != 0 {
            Step::Return(out)
        } else {
            Step::Call(AnonCall::AllocFolio)
        },
        AnonEvent::FolioAlloced { folio } => if folio == 0 {
            Step::Return(VM_FAULT_OOM)
        } else {
            Step::Call(AnonCall::Uptodate { folio })
        },
        AnonEvent::MarkedUptodate { folio } => Step::Call(AnonCall::InstallFolio { folio }),
        AnonEvent::FolioInstalled { ret } => Step::Return(ret),
    }
}

/// What [`rust_do_anonymous_page`] does at an event: the flag goes from `before` to
/// `after`, and `r` is next.
pub open spec fn anonymous_page_runs(
    vmf: u64,
    handled_ptr: u64,
    before: i32,
    after: i32,
    event: AnonEvent,
    r: Step<AnonCall, u32>,
) -> bool {
    match event {
        AnonEvent::Enter => step::begun(
            vmf != 0 && handled_ptr != 0,
            AnonCall::PteAlloc,
            VM_FAULT_OOM,
            before,
            after,
            r,
        ),
        _ => r == anon_next(event) && after == if r is Return {
            1
        } else {
            before
        },
    }
}

/// Sequences a private anonymous fault: map the zero page, or a new folio to write.
/// The flag is set when the fault is consumed, also by an error.
pub fn rust_do_anonymous_page(
    vmf: u64,
    handled_ptr: u64,
    handled: &mut i32,
    event: AnonEvent,
) -> (r: Step<AnonCall, u32>)
    ensures
        anonymous_page_runs(vmf, handled_ptr, *old(handled), *final(handled), event, r),
{
    match event {
        AnonEvent::Enter => {
            if vmf == 0 || handled_ptr == 0 {
                return Step::Return(VM_FAULT_OOM);
            }
            *handled = 0;
            Step::Call(AnonCall::PteAlloc)
        },
        AnonEvent::PteAlloced { err, out } => {
            if err != 0 {
                *handled = 1;
                return Step::Return(out);
            }
            Step::Call(AnonCall::UseZeropage)
        },
        AnonEvent::UsesZeropage { yes } => {
            if yes != 0 {
                Step::Call(AnonCall::InstallZeropage)
            } else {
                Step::Call(AnonCall::WritePrepare)
            }
        },
        AnonEvent::ZeropageInstalled { ret } => {
            *handled = 1;
            Step::Return(ret)
        },
        AnonEvent::WritePrepared { err, out } => {
            if err != 0 {
                *handled = 1;
                return Step::Return(out);
            }
            Step::Call(AnonCall::AllocFolio)
        },
        AnonEvent::FolioAlloced { folio } => {
            if folio == 0 {
                *handled = 1;
                return Step::Return(VM_FAULT_OOM);
            }
            Step::Call(AnonCall::Uptodate { folio })
        },
        AnonEvent::MarkedUptodate { folio } => Step::Call(AnonCall::InstallFolio { folio }),
        AnonEvent::FolioInstalled { ret } => {
            *handled = 1;
            Step::Return(ret)
        },
    }
}

/// [`rust_do_anonymous_page`] fails at once on a null pointer and on nothing else. An
/// error of a helper is handed back as it came and ends the fault; so does a folio that
/// cannot be had, as out of memory. The zero page is mapped exactly if it is to be
/// used, and a write prepares before it asks for a folio. The flag is set exactly by
/// what ends the fault.
pub proof fn law_anonymous_page(
    vmf: u64,
    handled_ptr: u64,
    before: i32,
    after: i32,
    event: AnonEvent,
    r: Step<AnonCall, u32>,
)
    requires
        anonymous_page_runs(vmf, handled_ptr, before, after, event, r),
    ensures
        match event {
            AnonEvent::Enter => step::enters(
                set![vmf, handled_ptr],
                before,
                after,
                AnonCall::PteAlloc,
                VM_FAULT_OOM,
                r,
            ),
            AnonEvent::PteAlloced { err, out } => {
                &&& r matches Step::Return(result) ==> result == out && after == 1
                &&& r matches Step::Call(call) ==> call == AnonCall::UseZeropage && after == before
                &&& r is Return <==> err != 0
                &&& r is Call <==> err == 0
            },
            AnonEvent::UsesZeropage { yes } => {
                &&& after == before
                &&& r is Call
                &&& r matches Step::Call(call) ==> (call == AnonCall::InstallZeropage <==> yes != 0)
                &&& r matches Step::Call(call) ==> (call == AnonCall::WritePrepare <==> yes == 0)
            },
            AnonEvent::WritePrepared { err, out } => {
                &&& r matches Step::Return(result) ==> result == out && after == 1
                &&& r matches Step::Call(call) ==> call == AnonCall::AllocFolio && after == before
                &&& r is Return <==> err != 0
                &&& r is Call <==> err == 0
            },
            AnonEvent::FolioAlloced { folio } => {
                &&& r matches Step::Return(result) ==> result == VM_FAULT_OOM && after == 1
                &&& r matches Step::Call(call) ==> call == (AnonCall::Uptodate { folio }) && after
                    == before
                &&& r is Return <==> folio == 0
                &&& r is Call <==> folio != 0
            },
            AnonEvent::MarkedUptodate { folio } => {
                &&& after == before
                &&& r matches Step::Call(call) && call == (AnonCall::InstallFolio { folio })
            },
            AnonEvent::ZeropageInstalled { ret } | AnonEvent::FolioInstalled { ret } => {
                &&& after == 1
                &&& r matches Step::Return(result) && result == ret
            },
        },
{
}

/// The helpers of [`rust_wp_page_copy`].
#[derive(Clone, Copy, PartialEq, Eq, Structural, Debug)]
pub enum CopyCall {
    Prepare,
    AllocFolio,
    /// Drop the reference on the old page.
    PutOld,
    CopyUser { folio: u64 },
    Uptodate { folio: u64 },
    InstallFolio { folio: u64 },
}

/// What happened since the last step of [`rust_wp_page_copy`].
#[derive(Clone, Copy, PartialEq, Eq, Structural, Debug)]
pub enum CopyEvent {
    Enter,
    /// Prepared; on an error `out` is the result.
    Prepared { err: i32, out: u32 },
    /// A folio was asked for; 0 is none.
    FolioAlloced { folio: u64 },
    /// The old page was copied; on an error `out` is the result and both pages are
    /// dropped.
    Copied { folio: u64, err: i32, out: u32 },
    /// The folio's contents are marked valid.
    MarkedUptodate { folio: u64 },
    FolioInstalled { ret: u32 },
}

/// What follows an event of [`rust_wp_page_copy`] once it is entered.
pub open spec fn copy_next(event: CopyEvent) -> Step<CopyCall, u32> {
    match event {
        CopyEvent::Enter => Step::Call(CopyCall::Prepare),
        CopyEvent::Prepared { err, out } => if err != 0 {
            Step::Return(out)
        } else {
            Step::Call(CopyCall::AllocFolio)
        },
        CopyEvent::FolioAlloced { folio } => if folio == 0 {
            Step::Finish(CopyCall::PutOld, VM_FAULT_OOM)
        } else {
            Step::Call(CopyCall::CopyUser { folio })
        },
        CopyEvent::Copied { folio, err, out } => if err != 0 {
            Step::Return(out)
        } else {
            Step::Call(CopyCall::Uptodate { folio })
        },
        CopyEvent::MarkedUptodate { folio } => Step::Call(CopyCall::InstallFolio { folio }),
        CopyEvent::FolioInstalled { ret } => Step::Return(ret),
    }
}

/// What [`rust_wp_page_copy`] does at an event: the flag goes from `before` to
/// `after`, and `r` is next.
pub open spec fn wp_copy_runs(
    vmf: u64,
    handled_ptr: u64,
    before: i32,
    after: i32,
    event: CopyEvent,
    r: Step<CopyCall, u32>,
) -> bool {
    match event {
        CopyEvent::Enter => step::begun(
            vmf != 0 && handled_ptr != 0,
            CopyCall::Prepare,
            VM_FAULT_OOM,
            before,
            after,
            r,
        ),
        _ => r == copy_next(event) && after == if r is Call {
            before
        } else {
            1
        },
    }
}

/// Sequences a private copy on write: copy the old page into a new folio and map it.
/// The flag is set when the fault is consumed, also by an error.
pub fn rust_wp_page_copy(vmf: u64, handled_ptr: u64, handled: &mut i32, event: CopyEvent) -> (r:
    Step<CopyCall, u32>)
    ensures
        wp_copy_runs(vmf, handled_ptr, *old(handled), *final(handled), event, r),
{
    match event {
        CopyEvent::Enter => {
            if vmf == 0 || handled_ptr == 0 {
                return Step::Return(VM_FAULT_OOM);
            }
            *handled = 0;
            Step::Call(CopyCall::Prepare)
        },
        CopyEvent::Prepared { err, out } => {
            if err != 0 {
                *handled = 1;
                return Step::Return(out);
            }
            Step::Call(CopyCall::AllocFolio)
        },
        CopyEvent::FolioAlloced { folio } => {
            if folio == 0 {
                *handled = 1;
                return Step::Finish(CopyCall::PutOld, VM_FAULT_OOM);
            }
            Step::Call(CopyCall::CopyUser { folio })
        },
        CopyEvent::Copied { folio, err, out } => {
            if err != 0 {
                *handled = 1;
                return Step::Return(out);
            }
            Step::Call(CopyCall::Uptodate { folio })
        },
        CopyEvent::MarkedUptodate { folio } => Step::Call(CopyCall::InstallFolio { folio }),
        CopyEvent::FolioInstalled { ret } => {
            *handled = 1;
            Step::Return(ret)
        },
    }
}

/// [`rust_wp_page_copy`] fails at once on a null pointer and on nothing else. An error
/// of a helper is handed back as it came and ends the fault. A folio that cannot be had
/// drops the old page and is out of memory. The flag is set exactly by what ends the
/// fault.
pub proof fn law_wp_copy(
    vmf: u64,
    handled_ptr: u64,
    before: i32,
    after: i32,
    event: CopyEvent,
    r: Step<CopyCall, u32>,
)
    requires
        wp_copy_runs(vmf, handled_ptr, before, after, event, r),
    ensures
        match event {
            CopyEvent::Enter => step::enters(
                set![vmf, handled_ptr],
                before,
                after,
                CopyCall::Prepare,
                VM_FAULT_OOM,
                r,
            ),
            CopyEvent::Prepared { err, out } => {
                &&& r matches Step::Return(result) ==> result == out && after == 1
                &&& r matches Step::Call(call) ==> call == CopyCall::AllocFolio && after == before
                &&& r is Return <==> err != 0
                &&& r is Call <==> err == 0
            },
            CopyEvent::FolioAlloced { folio } => {
                &&& r matches Step::Finish(call, result) ==> call == CopyCall::PutOld && result
                    == VM_FAULT_OOM && after == 1
                &&& r matches Step::Call(call) ==> call == (CopyCall::CopyUser { folio }) && after
                    == before
                &&& r is Finish <==> folio == 0
                &&& r is Call <==> folio != 0
            },
            CopyEvent::Copied { folio, err, out } => {
                &&& r matches Step::Return(result) ==> result == out && after == 1
                &&& r matches Step::Call(call) ==> call == (CopyCall::Uptodate { folio }) && after
                    == before
                &&& r is Return <==> err != 0
                &&& r is Call <==> err == 0
            },
            CopyEvent::MarkedUptodate { folio } => {
                &&& after == before
                &&& r matches Step::Call(call) && call == (CopyCall::InstallFolio { folio })
            },
            CopyEvent::FolioInstalled { ret } => {
                &&& after == 1
                &&& r matches Step::Return(result) && result == ret
            },
        },
{
}

/// Whether an event of [`rust_do_anonymous_page`] is the outcome of a helper.
pub open spec fn anon_answers(call: AnonCall, event: AnonEvent) -> bool {
    match call {
        AnonCall::PteAlloc => event is PteAlloced,
        AnonCall::UseZeropage => event is UsesZeropage,
        AnonCall::InstallZeropage => event is ZeropageInstalled,
        AnonCall::WritePrepare => event is WritePrepared,
        AnonCall::AllocFolio => event is FolioAlloced,
        AnonCall::Uptodate { folio } => event == (AnonEvent::MarkedUptodate { folio }),
        AnonCall::InstallFolio { .. } => event is FolioInstalled,
    }
}

/// Whether an event of [`rust_wp_page_copy`] is the outcome of a helper.
pub open spec fn copy_answers(call: CopyCall, event: CopyEvent) -> bool {
    match call {
        CopyCall::Prepare => event is Prepared,
        CopyCall::AllocFolio => event is FolioAlloced,
        CopyCall::PutOld => false,
        CopyCall::CopyUser { folio } => event matches CopyEvent::Copied { folio: f, .. } && f
            == folio,
        CopyCall::Uptodate { folio } => event == (CopyEvent::MarkedUptodate { folio }),
        CopyCall::InstallFolio { .. } => event is FolioInstalled,
    }
}

/// A folio that a write fault was given is marked valid and installed before the
/// fault returns, whatever the helpers answer.
pub proof fn law_anon_folio_installed(folio: u64, marked: AnonEvent)
    requires
        folio != 0,
        anon_answers(AnonCall::Uptodate { folio }, marked),
    ensures
        anon_next(AnonEvent::FolioAlloced { folio }) == Step::<AnonCall, u32>::Call(
            AnonCall::Uptodate { folio },
        ),
        anon_next(marked) == Step::<AnonCall, u32>::Call(AnonCall::InstallFolio { folio }),
        forall|e: AnonEvent|
            anon_answers(AnonCall::InstallFolio { folio }, e) ==> #[trigger] anon_next(
                e,
            ) is Return,
{
}

/// A folio that copy on write was given is filled first, and only a folio that was
/// filled is marked valid and installed, whatever the helpers answer.
pub proof fn law_copy_before_install(folio: u64, copied: CopyEvent, marked: CopyEvent)
    requires
        folio != 0,
        copy_answers(CopyCall::CopyUser { folio }, copied),
        copy_answers(CopyCall::Uptodate { folio }, marked),
    ensures
        copy_next(CopyEvent::FolioAlloced { folio }) == Step::<CopyCall, u32>::Call(
            CopyCall::CopyUser { folio },
        ),
        copied->Copied_err == 0 ==> copy_next(copied) == Step::<CopyCall, u32>::Call(
            CopyCall::Uptodate { folio },
        ),
        copied->Copied_err != 0 ==> copy_next(copied) == Step::<CopyCall, u32>::Return(
            copied->Copied_out,
        ),
        copy_next(marked) == Step::<CopyCall, u32>::Call(CopyCall::InstallFolio { folio }),
{
}

} // verus!
