//! Sequencers with several decisions, and the page-fault sequencers.

use kernel_mm::error::{EINVAL, EINVAL_ADDR, EINVAL_LONG, ENOMEM};
use kernel_mm::mm::fault::{
    rust_do_anonymous_page, rust_handle_pte_fault, rust_wp_dispatch, rust_wp_page_copy, AnonCall,
    AnonEvent, CopyCall, CopyEvent, PteCall, PteEvent, WpCall, VM_FAULT_OOM,
};
use kernel_mm::mm::mmap::advise::{rust_mvma_dispatch, MvmaCall};
use kernel_mm::mm::mmap::brk::{BrkCall, BrkEvent};
use kernel_mm::mm::mmap::lock::{
    rust_mlfix_dispatch, rust_mlock_dispatch, rust_mlockall_dispatch, rust_munlockall_dispatch,
    MlfixCall, MlfixEvent, MlockCall, MlockEvent, MlockallCall, MlockallEvent, MunlockallCall,
};
use kernel_mm::mm::mmap::map::{
    rust_mmap_region_dispatch, rust_mmapreg_inner_dispatch, rust_mnva_dispatch, rust_mset_dispatch,
    rust_rfp_dispatch, DommapArgs, DommapCall, DommapEvent, MmapRegionCall, MmapRegionEvent,
    MmapregCall, MmapregEvent, MnvaCall, MnvaEvent, MsetCall, MsetEvent, RfpCall, RfpEvent,
};
use kernel_mm::mm::mmap::protect::{rust_mpfix_dispatch, MpfixCall, MpfixEvent};
use kernel_mm::mm::mmap::remap::{MremapCall, MremapEvent};
use kernel_mm::mm::mmap::unmap::{rust_ubadd_dispatch, MunmapCall, MunmapOut, UbaddCall, UbaddEvent};
use kernel_mm::mm::mmap::vma::{
    rust_vex_dispatch, rust_vexp_dispatch, VexCall, VexEvent, VexpCall, VexpEvent,
};
use kernel_mm::mm::mtree::Announced;
use kernel_mm::mm::step::{Event, Step};
use kernel_mm::mm::unmap::{
    rust_brk_dispatch, rust_dommap_dispatch, rust_madvise_dispatch, rust_mprotect_dispatch,
    rust_mremap_dispatch, rust_munmap_dispatch,
};
use kernel_mm::mm::{fault, mmap};

#[test]
fn error_numbers() {
    assert_eq!((EINVAL, ENOMEM), (-22, -12));
    assert_eq!(EINVAL_LONG, -22);
    assert_eq!(EINVAL_ADDR, (-22i64) as u64);
}

#[test]
fn mlock_stages() {
    let mut h = 7;
    for z in 0..4 {
        let p = |i| if i == z { 0 } else { 8 };
        let r = rust_mlock_dispatch(p(0), p(1), p(2), p(3), &mut h, MlockEvent::Enter);
        assert_eq!(r, Step::Return(EINVAL));
    }
    assert_eq!(h, 7);
    let mut next = |event| (rust_mlock_dispatch(8, 8, 8, 8, &mut h, event), h);
    assert_eq!(next(MlockEvent::Enter), (Step::Call(MlockCall::Prepare), 0));
    let prepared = |kind| MlockEvent::Prepared { kind, out: -4, start: 4096, len: 8192 };
    assert_eq!(next(prepared(0)), (Step::Return(-4), 1));
    assert_eq!(next(prepared(1)), (Step::Call(MlockCall::Apply { start: 4096, len: 8192 }), 1));
    assert_eq!(next(prepared(2)), (Step::Reject(EINVAL), 1));
    let applied = |kind| MlockEvent::Applied { kind, out: -9, start: 4096, len: 8192 };
    assert_eq!(next(applied(0)), (Step::Return(-9), 1));
    assert_eq!(next(applied(1)), (Step::Reject(EINVAL), 1));
    let end = Step::Tail(MlockCall::Populate { start: 4096, len: 8192 });
    assert_eq!(next(applied(2)), (end, 1));
}

#[test]
fn mlfix_stages() {
    let mut h = 7;
    assert_eq!(rust_mlfix_dispatch(0, 8, &mut h, MlfixEvent::Enter), Step::Return(EINVAL));
    assert_eq!(rust_mlfix_dispatch(8, 0, &mut h, MlfixEvent::Enter), Step::Return(EINVAL));
    assert_eq!(h, 7);
    let mut next = |event| (rust_mlfix_dispatch(8, 8, &mut h, event), h);
    assert_eq!(next(MlfixEvent::Enter), (Step::Call(MlfixCall::Prepare), 0));
    let prepared = |kind| MlfixEvent::Prepared { kind, out: -4 };
    assert_eq!(next(prepared(0)), (Step::Return(-4), 1));
    assert_eq!(next(prepared(1)), (Step::Call(MlfixCall::Modify), 1));
    assert_eq!(next(prepared(2)), (Step::Reject(EINVAL), 1));
    let modified = |kind| MlfixEvent::Modified { kind, out: -9 };
    assert_eq!(next(modified(0)), (Step::Return(-9), 1));
    assert_eq!(next(modified(1)), (Step::Reject(EINVAL), 1));
    assert_eq!(next(modified(2)), (Step::Tail(MlfixCall::Pages), 1));
}

#[test]
fn mpfix_stages() {
    let mut h = 7;
    assert_eq!(rust_mpfix_dispatch(0, 8, &mut h, MpfixEvent::Enter), Step::Return(EINVAL));
    assert_eq!(rust_mpfix_dispatch(8, 0, &mut h, MpfixEvent::Enter), Step::Return(EINVAL));
    assert_eq!(h, 7);
    let mut next = |event| (rust_mpfix_dispatch(8, 8, &mut h, event), h);
    assert_eq!(next(MpfixEvent::Enter), (Step::Call(MpfixCall::Prepare), 0));
    let prepared = |kind| MpfixEvent::Prepared { kind, out: -4 };
    assert_eq!(next(prepared(0)), (Step::Return(-4), 1));
    assert_eq!(next(prepared(1)), (Step::Call(MpfixCall::Modify), 1));
    assert_eq!(next(prepared(2)), (Step::Reject(EINVAL), 1));
    let modified = |kind| MpfixEvent::Modified { kind, out: -9 };
    assert_eq!(next(modified(0)), (Step::Return(-9), 1));
    assert_eq!(next(modified(1)), (Step::Reject(EINVAL), 1));
    assert_eq!(next(modified(2)), (Step::Tail(MpfixCall::Apply), 1));
}

#[test]
fn mlockall_stages() {
    let mut h = 7;
    assert_eq!(rust_mlockall_dispatch(0, &mut h, MlockallEvent::Enter), Step::Return(EINVAL));
    assert_eq!(h, 7);
    let mut next = |event| (rust_mlockall_dispatch(8, &mut h, event), h);
    assert_eq!(next(MlockallEvent::Enter), (Step::Call(MlockallCall::Prepare), 0));
    let prepared = |kind| MlockallEvent::Prepared { kind, out: -4 };
    assert_eq!(next(prepared(0)), (Step::Return(-4), 1));
    assert_eq!(next(prepared(1)), (Step::Call(MlockallCall::Apply), 1));
    assert_eq!(next(prepared(3)), (Step::Reject(EINVAL), 1));
    let applied = |kind| MlockallEvent::Applied { kind, out: -9 };
    assert_eq!(next(applied(0)), (Step::Return(-9), 1));
    assert_eq!(next(applied(1)), (Step::Reject(EINVAL), 1));
    assert_eq!(next(applied(2)), (Step::Finish(MlockallCall::Populate, 0), 1));
}

#[test]
fn munlockall_applies_at_once() {
    let mut h = 7;
    assert_eq!(rust_munlockall_dispatch(0, &mut h), Step::Return(EINVAL));
    assert_eq!(h, 7);
    assert_eq!(rust_munlockall_dispatch(8, &mut h), Step::Tail(MunlockallCall::Apply));
    assert_eq!(h, 1);
}

#[test]
fn mvma_converts_errors() {
    let mut h = 7;
    assert_eq!(rust_mvma_dispatch(0, 8, &mut h, Event::Enter), Step::Return(EINVAL));
    assert_eq!(h, 7);
    let mut next = |event| (rust_mvma_dispatch(8, 8, &mut h, event), h);
    assert_eq!(next(Event::Enter), (Step::Call(MvmaCall::Classify), 0));
    let after = |kind| Event::Classified { kind, out: -11 };
    assert_eq!(next(after(0)), (Step::Return(-11), 1));
    assert_eq!(next(after(1)), (Step::Tail(MvmaCall::Convert { err: -11 }), 1));
    assert_eq!(next(after(2)), (Step::Tail(MvmaCall::Update), 1));
    assert_eq!(next(after(3)), (Step::Reject(EINVAL), 1));
}

#[test]
fn ubadd_flushes_before_it_adds() {
    let mut h = 7;
    assert_eq!(rust_ubadd_dispatch(8, 0, &mut h, UbaddEvent::Enter), Step::Return(()));
    assert_eq!(h, 7);
    let mut next = |event| (rust_ubadd_dispatch(8, 8, &mut h, event), h);
    assert_eq!(next(UbaddEvent::Enter), (Step::Call(UbaddCall::Classify), 0));
    assert_eq!(next(UbaddEvent::Classified { kind: 0 }), (Step::Return(()), 1));
    assert_eq!(next(UbaddEvent::Classified { kind: 1 }), (Step::Call(UbaddCall::Process), 1));
    assert_eq!(next(UbaddEvent::Processed), (Step::Tail(UbaddCall::Add), 1));
    assert_eq!(next(UbaddEvent::Classified { kind: 2 }), (Step::Tail(UbaddCall::Add), 1));
    assert_eq!(next(UbaddEvent::Classified { kind: 3 }), (Step::Abort(UbaddCall::Abort, ()), 1));
}

#[test]
fn munmap_hands_on_the_first_mapping() {
    let mut h = 7;
    assert_eq!(rust_munmap_dispatch(8, 0, 8, &mut h, Event::Enter), Step::Return(EINVAL));
    assert_eq!(rust_munmap_dispatch(0, 8, 8, &mut h, Event::Enter), Step::Return(EINVAL));
    assert_eq!(rust_munmap_dispatch(8, 8, 0, &mut h, Event::Enter), Step::Return(EINVAL));
    assert_eq!(h, 7);
    let mut next = |event| (rust_munmap_dispatch(8, 8, 8, &mut h, event), h);
    assert_eq!(next(Event::Enter), (Step::Call(MunmapCall::Classify), 0));
    let after = |kind| {
        Event::Classified { kind, out: MunmapOut { out: -3, vma: 64, end: 8192 } }
    };
    assert_eq!(next(after(0)), (Step::Return(-3), 1));
    assert_eq!(next(after(1)), (Step::Tail(MunmapCall::Align { vma: 64, end: 8192 }), 1));
    assert_eq!(next(after(2)), (Step::Reject(EINVAL), 1));
}

#[test]
fn vex_commits_or_aborts() {
    let mut h = 7;
    assert_eq!(rust_vex_dispatch(0, 8, &mut h, VexEvent::Enter), Step::Return(0));
    assert_eq!(h, 7);
    let mut next = |event| (rust_vex_dispatch(8, 8, &mut h, event), h);
    assert_eq!(next(VexEvent::Enter), (Step::Call(VexCall::Classify), 0));
    assert_eq!(next(VexEvent::Classified { kind: 0 }), (Step::Return(0), 1));
    assert_eq!(next(VexEvent::Classified { kind: 1 }), (Step::Call(VexCall::Both), 1));
    assert_eq!(next(VexEvent::Classified { kind: 2 }), (Step::Call(VexCall::Left), 1));
    assert_eq!(next(VexEvent::Classified { kind: 3 }), (Step::Call(VexCall::Right), 1));
    assert_eq!(next(VexEvent::Classified { kind: 4 }), (Step::Abort(VexCall::Abort, 0), 1));
    assert_eq!(next(VexEvent::Merged { err: -12 }), (Step::Finish(VexCall::Abort, 0), 1));
    assert_eq!(next(VexEvent::Merged { err: 0 }), (Step::Call(VexCall::Commit), 1));
    assert_eq!(next(VexEvent::Committed { vma: 0 }), (Step::Finish(VexCall::Abort, 0), 1));
    assert_eq!(next(VexEvent::Committed { vma: 96 }), (Step::Return(96), 1));
}

#[test]
fn vexp_aborts_a_failed_commit() {
    let mut h = 7;
    assert_eq!(rust_vexp_dispatch(0, 8, &mut h, VexpEvent::Enter), Step::Return(EINVAL));
    let mut next = |event| (rust_vexp_dispatch(8, 8, &mut h, event), h);
    assert_eq!(next(VexpEvent::Enter), (Step::Call(VexpCall::Classify), 0));
    let after = |kind| VexpEvent::Classified { kind, out: -12 };
    assert_eq!(next(after(0)), (Step::Return(-12), 1));
    assert_eq!(next(after(1)), (Step::Call(VexpCall::Commit), 1));
    assert_eq!(next(after(2)), (Step::Abort(VexpCall::Abort, EINVAL), 1));
    assert_eq!(next(VexpEvent::Committed { err: -12 }), (Step::Finish(VexpCall::Abort, -12), 1));
    assert_eq!(next(VexpEvent::Committed { err: 0 }), (Step::Return(0), 1));
}

#[test]
fn brk_accounts_what_it_got() {
    let mut h = 7;
    assert_eq!(rust_brk_dispatch(0, 8, 8, 8, &mut h, BrkEvent::Enter), Step::Return(ENOMEM));
    assert_eq!(rust_brk_dispatch(8, 8, 0, 8, &mut h, BrkEvent::Enter), Step::Return(ENOMEM));
    assert_eq!(rust_brk_dispatch(8, 8, 8, 0, &mut h, BrkEvent::Enter), Step::Return(ENOMEM));
    assert_eq!(h, 7);
    let r = rust_brk_dispatch(8, 0, 8, 8, &mut h, BrkEvent::Enter);
    assert_eq!((r, h), (Step::Call(BrkCall::Prepare), 0));
    let mut next = |event| (rust_brk_dispatch(8, 64, 8, 8, &mut h, event), h);
    assert_eq!(next(BrkEvent::Enter), (Step::Call(BrkCall::Prepare), 0));
    let prepared = |kind| BrkEvent::Prepared { kind, out: -1 };
    assert_eq!(next(prepared(0)), (Step::Return(-1), 1));
    assert_eq!(next(prepared(1)), (Step::Call(BrkCall::Expand), 1));
    assert_eq!(next(prepared(2)), (Step::Reject(ENOMEM), 1));
    let expanded = |kind| BrkEvent::Expanded { kind, out: -2 };
    assert_eq!(next(expanded(0)), (Step::Return(-2), 1));
    assert_eq!(next(expanded(1)), (Step::Reject(ENOMEM), 1));
    assert_eq!(next(expanded(2)), (Step::Call(BrkCall::New), 1));
    assert_eq!(next(expanded(3)), (Step::Finish(BrkCall::Account { vma: 64 }, 0), 1));
    let made = |kind| BrkEvent::Made { kind, vma: 96, out: -3 };
    assert_eq!(next(made(0)), (Step::Return(-3), 1));
    assert_eq!(next(made(2)), (Step::Reject(ENOMEM), 1));
    assert_eq!(next(made(3)), (Step::Finish(BrkCall::Account { vma: 96 }, 0), 1));
}

#[test]
fn dommap_populates_after_installing() {
    let live = DommapArgs {
        addr: 8,
        len: 8,
        prot: 8,
        flags: 8,
        vma_flags: 8,
        pgoff: 8,
        populate: 8,
        handled: 8,
    };
    let mut h = 7;
    let mut populate = 9;
    for dead in [
        DommapArgs { addr: 0, ..live },
        DommapArgs { len: 0, ..live },
        DommapArgs { prot: 0, ..live },
        DommapArgs { flags: 0, ..live },
        DommapArgs { vma_flags: 0, ..live },
        DommapArgs { pgoff: 0, ..live },
        DommapArgs { populate: 0, ..live },
        DommapArgs { handled: 0, ..live },
    ] {
        let r = rust_dommap_dispatch(dead, &mut populate, &mut h, DommapEvent::Enter);
        assert_eq!(r, Step::Return(EINVAL_ADDR));
    }
    assert_eq!((h, populate), (7, 9));
    let mut next = |event| (rust_dommap_dispatch(live, &mut populate, &mut h, event), h);
    assert_eq!(next(DommapEvent::Enter), (Step::Call(DommapCall::Prepare), 0));
    let (addr, len, pgoff, flags) = (0x7000, 0x3000, 5, 0x22);
    let after = |kind| DommapEvent::Prepared { kind, out: 4096, addr, len, pgoff, flags };
    assert_eq!(next(after(0)), (Step::Return(4096), 1));
    let install = Step::Call(DommapCall::Region { addr, len, pgoff, flags });
    assert_eq!(next(after(1)), (install, 1));
    assert_eq!(next(after(2)), (Step::Reject(EINVAL_ADDR), 1));
    let mapped = 8192;
    let end = Step::Finish(DommapCall::Populate { mapped, flags, len }, mapped);
    assert_eq!(next(DommapEvent::Mapped { mapped, flags, len }), (end, 1));
    assert_eq!(populate, 0);
}

#[test]
fn mmap_region_exits_after_installing() {
    let mut h = 7;
    let r = rust_mmap_region_dispatch(0, 8, &mut h, MmapRegionEvent::Enter);
    assert_eq!(r, Step::Return(EINVAL_ADDR));
    assert_eq!(h, 7);
    let mut next = |event| (rust_mmap_region_dispatch(8, 8, &mut h, event), h);
    assert_eq!(next(MmapRegionEvent::Enter), (Step::Call(MmapRegionCall::Check), 0));
    let after = |kind| MmapRegionEvent::Checked { kind, writable: 1, out: 4096 };
    assert_eq!(next(after(0)), (Step::Return(4096), 1));
    assert_eq!(next(after(1)), (Step::Call(MmapRegionCall::Install { writable: 1 }), 1));
    assert_eq!(next(after(2)), (Step::Reject(EINVAL_ADDR), 1));
    let end = Step::Tail(MmapRegionCall::Exit { writable: 1, mapped: 8192 });
    assert_eq!(next(MmapRegionEvent::Installed { writable: 1, mapped: 8192 }), (end, 1));
}

#[test]
fn mmapreg_completes_or_aborts() {
    let mut h = 7;
    let r = rust_mmapreg_inner_dispatch(8, 0, 8, &mut h, MmapregEvent::Enter);
    assert_eq!(r, Step::Return(EINVAL_ADDR));
    let mut next = |event| (rust_mmapreg_inner_dispatch(8, 8, 8, &mut h, event), h);
    assert_eq!(next(MmapregEvent::Enter), (Step::Call(MmapregCall::Setup), 0));
    let set_up = |kind| MmapregEvent::SetUp { kind, out: 4096 };
    assert_eq!(next(set_up(0)), (Step::Finish(MmapregCall::Abort, 4096), 1));
    assert_eq!(next(set_up(1)), (Step::Abort(MmapregCall::Abort, EINVAL_ADDR), 1));
    assert_eq!(next(set_up(2)), (Step::Call(MmapregCall::Merge), 1));
    let merged = |kind| MmapregEvent::Merged { kind, vma: 64 };
    assert_eq!(next(merged(0)), (Step::Abort(MmapregCall::UnacctAbort, EINVAL_ADDR), 1));
    assert_eq!(next(merged(3)), (Step::Call(MmapregCall::New), 1));
    let end = Step::Tail(MmapregCall::Complete { vma: 64, allocated: false });
    assert_eq!(next(merged(4)), (end, 1));
    let made = |kind| MmapregEvent::Made { kind, vma: 96, out: 8192 };
    assert_eq!(next(made(0)), (Step::Finish(MmapregCall::UnacctAbort, 8192), 1));
    assert_eq!(next(made(3)), (Step::Abort(MmapregCall::UnacctAbort, EINVAL_ADDR), 1));
    let end = Step::Tail(MmapregCall::Complete { vma: 96, allocated: true });
    assert_eq!(next(made(4)), (end, 1));
}

#[test]
fn mnva_stores_after_its_callback() {
    let mut h = 7;
    assert_eq!(rust_mnva_dispatch(8, 0, &mut h, MnvaEvent::Enter), Step::Return(EINVAL));
    let mut next = |event| (rust_mnva_dispatch(8, 8, &mut h, event), h);
    assert_eq!(next(MnvaEvent::Enter), (Step::Call(MnvaCall::Classify), 0));
    let after = |kind| MnvaEvent::Classified { kind, out: -12 };
    assert_eq!(next(after(0)), (Step::Return(-12), 1));
    assert_eq!(next(after(1)), (Step::Call(MnvaCall::File), 1));
    assert_eq!(next(after(2)), (Step::Call(MnvaCall::Shmem), 1));
    assert_eq!(next(after(3)), (Step::Tail(MnvaCall::Store), 1));
    assert_eq!(next(after(4)), (Step::Abort(MnvaCall::Abort, EINVAL), 1));
    assert_eq!(next(MnvaEvent::CalledBack { err: -5 }), (Step::Finish(MnvaCall::Abort, -5), 1));
    assert_eq!(next(MnvaEvent::CalledBack { err: 0 }), (Step::Tail(MnvaCall::Store), 1));
}

#[test]
fn rfp_checks_security_first() {
    let mut h = 7;
    assert_eq!(rust_rfp_dispatch(0, 8, &mut h, RfpEvent::Enter), Step::Return(-22));
    let mut next = |event| (rust_rfp_dispatch(8, 8, &mut h, event), h);
    assert_eq!(next(RfpEvent::Enter), (Step::Call(RfpCall::Classify), 0));
    let after = |kind| RfpEvent::Classified { kind, out: -1 };
    assert_eq!(next(after(0)), (Step::Return(-1), 1));
    assert_eq!(next(after(1)), (Step::Call(RfpCall::Security), 1));
    assert_eq!(next(after(2)), (Step::Abort(RfpCall::Abort, -22), 1));
    let secured = |kind| RfpEvent::Secured { kind, out: -13 };
    assert_eq!(next(secured(0)), (Step::Return(-13), 1));
    assert_eq!(next(secured(1)), (Step::Abort(RfpCall::Abort, -22), 1));
    assert_eq!(next(secured(2)), (Step::Tail(RfpCall::Apply), 1));
}

#[test]
fn mset_gathers_then_checks_limits() {
    let mut h = 7;
    assert_eq!(rust_mset_dispatch(0, 8, &mut h, MsetEvent::Enter), Step::Return(EINVAL));
    let mut next = |event| (rust_mset_dispatch(8, 8, &mut h, event), h);
    assert_eq!(next(MsetEvent::Enter), (Step::Call(MsetCall::Classify), 0));
    let after = |kind| MsetEvent::Classified { kind, out: -1 };
    assert_eq!(next(after(0)), (Step::Return(-1), 1));
    assert_eq!(next(after(1)), (Step::Call(MsetCall::Gather), 1));
    assert_eq!(next(after(2)), (Step::Tail(MsetCall::Limits), 1));
    assert_eq!(next(after(3)), (Step::Abort(MsetCall::Abort, EINVAL), 1));
    assert_eq!(next(MsetEvent::Gathered { err: -12 }), (Step::Return(-12), 1));
    assert_eq!(next(MsetEvent::Gathered { err: 0 }), (Step::Tail(MsetCall::Limits), 1));
}

#[test]
fn mremap_exits_once_locked() {
    let mut h = 7;
    assert_eq!(rust_mremap_dispatch(0, 8, &mut h, MremapEvent::Enter), Step::Return(EINVAL_ADDR));
    assert_eq!(h, 7);
    let mut next = |event| (rust_mremap_dispatch(8, 8, &mut h, event), h);
    assert_eq!(next(MremapEvent::Enter), (Step::Call(MremapCall::Prepare), 0));
    let prepared = |kind| MremapEvent::Prepared { kind, out: 1 };
    assert_eq!(next(prepared(0)), (Step::Return(1), 1));
    assert_eq!(next(prepared(1)), (Step::Call(MremapCall::Lock), 1));
    assert_eq!(next(prepared(2)), (Step::Reject(EINVAL_ADDR), 1));
    let locked = |kind| MremapEvent::Locked { kind, out: 2 };
    assert_eq!(next(locked(0)), (Step::Return(2), 1));
    assert_eq!(next(locked(1)), (Step::Call(MremapCall::Classify), 1));
    assert_eq!(next(locked(2)), (Step::Reject(EINVAL_ADDR), 1));
    let after = |kind| MremapEvent::Classified { kind, out: 3 };
    assert_eq!(next(after(0)), (Step::Tail(MremapCall::Exit { res: 3 }), 1));
    assert_eq!(next(after(2)), (Step::Call(MremapCall::Move), 1));
    assert_eq!(next(after(3)), (Step::Call(MremapCall::To), 1));
    assert_eq!(next(after(4)), (Step::Call(MremapCall::At), 1));
    let end = Step::RejectTail(MremapCall::Exit { res: EINVAL_ADDR });
    assert_eq!(next(after(1)), (end, 1));
    let end = Step::Tail(MremapCall::Exit { res: 4096 });
    assert_eq!(next(MremapEvent::Moved { res: 4096 }), (end, 1));
}

#[test]
fn unmap_module_offers_the_sequencers() {
    let mut h = 7;
    assert_eq!(rust_mprotect_dispatch(0, 8, &mut h, Event::Enter), Step::Return(EINVAL));
    assert_eq!(rust_madvise_dispatch(0, 8, &mut h, Event::Enter), Step::Return(EINVAL));
    assert_eq!(h, 7);
}

#[test]
fn pte_faults_by_kind() {
    let mut h = 7;
    assert_eq!(rust_handle_pte_fault(0, 8, &mut h, PteEvent::Enter), Step::Return(VM_FAULT_OOM));
    assert_eq!(rust_handle_pte_fault(8, 0, &mut h, PteEvent::Enter), Step::Return(1));
    assert_eq!(h, 7);
    let mut next = |event| (rust_handle_pte_fault(8, 8, &mut h, event), h);
    assert_eq!(next(PteEvent::Enter), (Step::Call(PteCall::Classify), 0));
    let after = |kind| PteEvent::Classified { kind, out: 0x200 };
    assert_eq!(next(after(0)), (Step::Return(0x200), 1));
    assert_eq!(next(after(1)), (Step::Call(PteCall::IsAnonymous), 1));
    assert_eq!(next(after(2)), (Step::Tail(PteCall::SwapPage), 1));
    assert_eq!(next(after(3)), (Step::Tail(PteCall::UffdRwp), 1));
    assert_eq!(next(after(4)), (Step::Tail(PteCall::NumaPage), 1));
    assert_eq!(next(after(5)), (Step::Tail(PteCall::WpPage), 1));
    assert_eq!(next(after(6)), (Step::Reject(0), 1));
    assert_eq!(next(PteEvent::Anonymous { yes: 1 }), (Step::Tail(PteCall::MissingAnon), 1));
    assert_eq!(next(PteEvent::Anonymous { yes: 0 }), (Step::Tail(PteCall::MissingFile), 1));
}

#[test]
fn wp_faults_by_kind() {
    let mut h = 7;
    assert_eq!(rust_wp_dispatch(0, 8, &mut h, Event::Enter), Step::Return(VM_FAULT_OOM));
    assert_eq!(h, 7);
    let mut next = |event| (rust_wp_dispatch(8, 8, &mut h, event), h);
    assert_eq!(next(Event::Enter), (Step::Call(WpCall::Classify), 0));
    let after = |kind| Event::Classified { kind, out: 0x200 };
    assert_eq!(next(after(0)), (Step::Return(0x200), 1));
    assert_eq!(next(after(1)), (Step::Tail(WpCall::PfnShared), 1));
    assert_eq!(next(after(2)), (Step::Tail(WpCall::PageShared), 1));
    assert_eq!(next(after(3)), (Step::Finish(WpCall::Reuse, 0), 1));
    assert_eq!(next(after(4)), (Step::Tail(WpCall::DoCopy), 1));
    assert_eq!(next(after(5)), (Step::Reject(0), 1));
}

#[test]
fn anonymous_fault_sequence() {
    let mut h = 7;
    let r = rust_do_anonymous_page(0, 8, &mut h, AnonEvent::Enter);
    assert_eq!(r, Step::Return(VM_FAULT_OOM));
    assert_eq!(h, 7);
    let mut next = |event| {
        h = 0;
        (rust_do_anonymous_page(8, 8, &mut h, event), h)
    };
    assert_eq!(next(AnonEvent::Enter), (Step::Call(AnonCall::PteAlloc), 0));
    assert_eq!(next(AnonEvent::PteAlloced { err: 1, out: 9 }), (Step::Return(9), 1));
    let r = next(AnonEvent::PteAlloced { err: 0, out: 9 });
    assert_eq!(r, (Step::Call(AnonCall::UseZeropage), 0));
    let r = next(AnonEvent::UsesZeropage { yes: 1 });
    assert_eq!(r, (Step::Call(AnonCall::InstallZeropage), 0));
    assert_eq!(next(AnonEvent::ZeropageInstalled { ret: 4 }), (Step::Return(4), 1));
    let r = next(AnonEvent::UsesZeropage { yes: 0 });
    assert_eq!(r, (Step::Call(AnonCall::WritePrepare), 0));
    assert_eq!(next(AnonEvent::WritePrepared { err: 1, out: 5 }), (Step::Return(5), 1));
    let r = next(AnonEvent::WritePrepared { err: 0, out: 5 });
    assert_eq!(r, (Step::Call(AnonCall::AllocFolio), 0));
    assert_eq!(next(AnonEvent::FolioAlloced { folio: 0 }), (Step::Return(VM_FAULT_OOM), 1));
    let r = next(AnonEvent::FolioAlloced { folio: 64 });
    assert_eq!(r, (Step::Call(AnonCall::Uptodate { folio: 64 }), 0));
    let r = next(AnonEvent::MarkedUptodate { folio: 64 });
    assert_eq!(r, (Step::Call(AnonCall::InstallFolio { folio: 64 }), 0));
    assert_eq!(next(AnonEvent::FolioInstalled { ret: 0 }), (Step::Return(0), 1));
}

#[test]
fn copy_on_write_sequence() {
    let mut h = 7;
    let r = rust_wp_page_copy(8, 0, &mut h, CopyEvent::Enter);
    assert_eq!(r, Step::Return(VM_FAULT_OOM));
    assert_eq!(h, 7);
    let mut next = |event| {
        h = 0;
        (rust_wp_page_copy(8, 8, &mut h, event), h)
    };
    assert_eq!(next(CopyEvent::Enter), (Step::Call(CopyCall::Prepare), 0));
    assert_eq!(next(CopyEvent::Prepared { err: 1, out: 9 }), (Step::Return(9), 1));
    let r = next(CopyEvent::Prepared { err: 0, out: 9 });
    assert_eq!(r, (Step::Call(CopyCall::AllocFolio), 0));
    let r = next(CopyEvent::FolioAlloced { folio: 0 });
    assert_eq!(r, (Step::Finish(CopyCall::PutOld, VM_FAULT_OOM), 1));
    let r = next(CopyEvent::FolioAlloced { folio: 64 });
    assert_eq!(r, (Step::Call(CopyCall::CopyUser { folio: 64 }), 0));
    assert_eq!(next(CopyEvent::Copied { folio: 64, err: 1, out: 3 }), (Step::Return(3), 1));
    let r = next(CopyEvent::Copied { folio: 64, err: 0, out: 3 });
    assert_eq!(r, (Step::Call(CopyCall::Uptodate { folio: 64 }), 0));
    let r = next(CopyEvent::MarkedUptodate { folio: 64 });
    assert_eq!(r, (Step::Call(CopyCall::InstallFolio { folio: 64 }), 0));
    assert_eq!(next(CopyEvent::FolioInstalled { ret: 0 }), (Step::Return(0), 1));
}

#[test]
fn sequencer_announcements() {
    assert_eq!(
        fault::announce(),
        "rust-fault: PTE sequencer and anonymous/COW handler active\n"
    );
    let mut seen = Announced { count: 0 };
    let (own, tree) = mmap::announce(&mut seen);
    assert_eq!(
        own,
        "rust-mmap: vm_unmapped_area first-fit/topdown and mmap/munmap/brk/mprotect/mremap/madvise/mmap_region/mprotect_fixup/mseal/mlock/mlock_fixup/mprotect_walk/munlock/mlockall/msync/mincore/vector_madvise/madvise_do/madvise_walk/madvise_vma/madvise_dontneed/madvise_update/vma_merge/mmap_new/sys_brk/process_madvise/vm_brk/vma_merge_existing/vma_expand/expand_stack/vma_modify/vma_shrink/commit_merge/remap_file_pages/change_protection/expand_downwards/insert_vm_struct/split_vma/vma_link/copy_vma/do_vmi_align_munmap/unmap_region/install_special_mapping/vms_gather/vms_complete/acct_stack_growth/vms_clean_up/vms_abort/mmap_setup/mmap_new_file/dup_anon_vma/find_mergeable_anon_vma/vma_link_file/vm_munmap/ksys_mmap_pgoff/split_vma_limit/unlink_file_vma_batch_add/exit_mmap/find_vma_prev/do_munmap/remove_vma/vma_merge_extend sequencer\n"
    );
    assert_eq!(tree, Some("rust-mmap: VMA maple tree is a Rust RCU range array\n"));
    assert_eq!(mmap::announce(&mut seen), (own, None));
}
