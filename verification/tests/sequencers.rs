//! Sequencers with one decision: what follows each kind.

use kernel_mm::error::EINVAL_ADDR;
use kernel_mm::mm::mmap::advise::{
    rust_madvise_dispatch, rust_mdnf_dispatch, rust_mdo_dispatch, rust_mupd_dispatch,
    rust_mwalk_dispatch, rust_pmad_dispatch, rust_vmadvise_dispatch, MadviseCall, MdnfCall,
    MdoCall, MupdCall, MwalkCall, PmadCall, VmadviseCall,
};
use kernel_mm::mm::mmap::brk::{
    rust_sysbrk_dispatch, rust_vmbrk_dispatch, SysbrkCall, VmbrkCall,
};
use kernel_mm::mm::mmap::lock::{
    rust_munlock_dispatch, MunlockCall, MunlockOut,
};
use kernel_mm::mm::mmap::map::{
    rust_ism_dispatch, rust_kmp_dispatch, rust_mnf_dispatch, IsmCall, KmpCall, MnfCall,
};
use kernel_mm::mm::mmap::protect::{
    rust_cp_dispatch, rust_mprot_dispatch, rust_mprotect_dispatch, rust_mseal_dispatch, CpCall,
    MprotCall, MprotectCall, MsealCall,
};
use kernel_mm::mm::mmap::sync::{
    rust_mincore_dispatch, rust_msync_dispatch, MincoreCall, MsyncCall,
};
use kernel_mm::mm::mmap::unmap::{
    rust_amunmap_dispatch, rust_clean_dispatch, rust_dmunmap_dispatch, rust_emmap_dispatch,
    rust_gather_dispatch, rust_ur_dispatch, rust_vabort_dispatch, rust_vcomp_dispatch,
    rust_vmunmap_dispatch, AmunmapCall, CleanCall, DmunmapCall, EmmapCall, GatherCall, UrCall,
    VabortCall, VcompCall, VmunmapCall,
};
use kernel_mm::mm::mmap::vma::{
    rust_asg_dispatch, rust_cmerge_dispatch, rust_cvma_dispatch, rust_dav_dispatch,
    rust_estk_dispatch, rust_exdn_dispatch, rust_fma_dispatch, rust_ivs_dispatch,
    rust_rvma_dispatch, rust_spw_dispatch, rust_svma_dispatch, rust_vlf_dispatch,
    rust_vlink_dispatch, rust_vme_dispatch, rust_vmerge_dispatch, rust_vmod_dispatch,
    rust_vsh_dispatch, AsgCall, CmergeCall, CvmaCall, DavCall, EstkCall, ExdnCall, FmaCall,
    IvsCall, RvmaCall, SpwCall, SvmaCall, VlfCall, VlinkCall, VmeCall, VmergeCall, VmodCall,
    VshCall,
};
use kernel_mm::mm::step::{count_first, Event, Step};

#[test]
fn madvise_kinds() {
    let mut handled = 7;
    assert_eq!(rust_madvise_dispatch(0, 8, &mut handled, Event::Enter), Step::Return(-22));
    assert_eq!(rust_madvise_dispatch(8, 0, &mut handled, Event::Enter), Step::Return(-22));
    assert_eq!(handled, 7);
    assert_eq!(rust_madvise_dispatch(8, 8, &mut handled, Event::Enter), Step::Call(MadviseCall::Prepare));
    assert_eq!(handled, 0);
    let after = |kind, handled: &mut i32| {
        rust_madvise_dispatch(8, 8, handled, Event::Classified { kind, out: -5 })
    };
    assert_eq!(after(0, &mut handled), Step::Return(-5));
    assert_eq!(after(1, &mut handled), Step::Tail(MadviseCall::Apply));
    assert_eq!(handled, 1);
    assert_eq!(after(2, &mut handled), Step::Reject(-22));
    assert_eq!(after(-1, &mut handled), Step::Reject(-22));
}

#[test]
fn vmadvise_kinds() {
    let mut handled = 7;
    assert_eq!(rust_vmadvise_dispatch(0, 8, &mut handled, Event::Enter), Step::Return(-22));
    assert_eq!(rust_vmadvise_dispatch(8, 0, &mut handled, Event::Enter), Step::Return(-22));
    assert_eq!(handled, 7);
    assert_eq!(rust_vmadvise_dispatch(8, 8, &mut handled, Event::Enter), Step::Call(VmadviseCall::Lock));
    assert_eq!(handled, 0);
    let after = |kind, handled: &mut i32| {
        rust_vmadvise_dispatch(8, 8, handled, Event::Classified { kind, out: -5 })
    };
    assert_eq!(after(0, &mut handled), Step::Return(-5));
    assert_eq!(after(1, &mut handled), Step::Tail(VmadviseCall::Walk));
    assert_eq!(handled, 1);
    assert_eq!(after(2, &mut handled), Step::Abort(VmadviseCall::Abort, -22));
    assert_eq!(after(-1, &mut handled), Step::Abort(VmadviseCall::Abort, -22));
}

#[test]
fn mdo_kinds() {
    let mut handled = 7;
    assert_eq!(rust_mdo_dispatch(0, 8, &mut handled, Event::Enter), Step::Return(-22));
    assert_eq!(rust_mdo_dispatch(8, 0, &mut handled, Event::Enter), Step::Return(-22));
    assert_eq!(handled, 7);
    assert_eq!(rust_mdo_dispatch(8, 8, &mut handled, Event::Enter), Step::Call(MdoCall::Classify));
    assert_eq!(handled, 0);
    let after = |kind, handled: &mut i32| {
        rust_mdo_dispatch(8, 8, handled, Event::Classified { kind, out: -5 })
    };
    assert_eq!(after(0, &mut handled), Step::Return(-5));
    assert_eq!(after(1, &mut handled), Step::Tail(MdoCall::Populate));
    assert_eq!(after(2, &mut handled), Step::Tail(MdoCall::Walk));
    assert_eq!(handled, 1);
    assert_eq!(after(3, &mut handled), Step::Reject(-22));
    assert_eq!(after(-1, &mut handled), Step::Reject(-22));
}

#[test]
fn mwalk_kinds() {
    let mut handled = 7;
    assert_eq!(rust_mwalk_dispatch(0, 8, &mut handled, Event::Enter), Step::Return(-22));
    assert_eq!(rust_mwalk_dispatch(8, 0, &mut handled, Event::Enter), Step::Return(-22));
    assert_eq!(handled, 7);
    assert_eq!(rust_mwalk_dispatch(8, 8, &mut handled, Event::Enter), Step::Call(MwalkCall::Start));
    assert_eq!(handled, 0);
    let after = |kind, handled: &mut i32| {
        rust_mwalk_dispatch(8, 8, handled, Event::Classified { kind, out: -5 })
    };
    assert_eq!(after(0, &mut handled), Step::Return(-5));
    assert_eq!(after(1, &mut handled), Step::Tail(MwalkCall::Iter));
    assert_eq!(handled, 1);
    assert_eq!(after(2, &mut handled), Step::Reject(-22));
    assert_eq!(after(-1, &mut handled), Step::Reject(-22));
}

#[test]
fn mdnf_kinds() {
    let mut handled = 7;
    assert_eq!(rust_mdnf_dispatch(0, 8, &mut handled, Event::Enter), Step::Return(-22));
    assert_eq!(rust_mdnf_dispatch(8, 0, &mut handled, Event::Enter), Step::Return(-22));
    assert_eq!(handled, 7);
    assert_eq!(rust_mdnf_dispatch(8, 8, &mut handled, Event::Enter), Step::Call(MdnfCall::Classify));
    assert_eq!(handled, 0);
    let after = |kind, handled: &mut i32| {
        rust_mdnf_dispatch(8, 8, handled, Event::Classified { kind, out: -5 })
    };
    assert_eq!(after(0, &mut handled), Step::Return(-5));
    assert_eq!(after(1, &mut handled), Step::Tail(MdnfCall::Dontneed));
    assert_eq!(after(2, &mut handled), Step::Tail(MdnfCall::Free));
    assert_eq!(handled, 1);
    assert_eq!(after(3, &mut handled), Step::Reject(-22));
    assert_eq!(after(-1, &mut handled), Step::Reject(-22));
}

#[test]
fn mupd_kinds() {
    let mut handled = 7;
    assert_eq!(rust_mupd_dispatch(0, 8, &mut handled, Event::Enter), Step::Return(-22));
    assert_eq!(rust_mupd_dispatch(8, 0, &mut handled, Event::Enter), Step::Return(-22));
    assert_eq!(handled, 7);
    assert_eq!(rust_mupd_dispatch(8, 8, &mut handled, Event::Enter), Step::Call(MupdCall::Classify));
    assert_eq!(handled, 0);
    let after = |kind, handled: &mut i32| {
        rust_mupd_dispatch(8, 8, handled, Event::Classified { kind, out: -5 })
    };
    assert_eq!(after(0, &mut handled), Step::Return(-5));
    assert_eq!(after(1, &mut handled), Step::Tail(MupdCall::Name));
    assert_eq!(after(2, &mut handled), Step::Tail(MupdCall::Flags));
    assert_eq!(handled, 1);
    assert_eq!(after(3, &mut handled), Step::Reject(-22));
    assert_eq!(after(-1, &mut handled), Step::Reject(-22));
}

#[test]
fn pmad_kinds() {
    let mut handled = 7;
    assert_eq!(rust_pmad_dispatch(0, 8, &mut handled, Event::Enter), Step::Return(-22));
    assert_eq!(rust_pmad_dispatch(8, 0, &mut handled, Event::Enter), Step::Return(-22));
    assert_eq!(handled, 7);
    assert_eq!(rust_pmad_dispatch(8, 8, &mut handled, Event::Enter), Step::Call(PmadCall::Classify));
    assert_eq!(handled, 0);
    let after = |kind, handled: &mut i32| {
        rust_pmad_dispatch(8, 8, handled, Event::Classified { kind, out: -5 })
    };
    assert_eq!(after(0, &mut handled), Step::Return(-5));
    assert_eq!(after(1, &mut handled), Step::Tail(PmadCall::Apply));
    assert_eq!(handled, 1);
    assert_eq!(after(2, &mut handled), Step::Abort(PmadCall::Abort, -22));
    assert_eq!(after(-1, &mut handled), Step::Abort(PmadCall::Abort, -22));
}

#[test]
fn sysbrk_kinds() {
    let mut handled = 7;
    assert_eq!(rust_sysbrk_dispatch(0, 8, &mut handled, Event::Enter), Step::Return(EINVAL_ADDR));
    assert_eq!(rust_sysbrk_dispatch(8, 0, &mut handled, Event::Enter), Step::Return(EINVAL_ADDR));
    assert_eq!(handled, 7);
    assert_eq!(rust_sysbrk_dispatch(8, 8, &mut handled, Event::Enter), Step::Call(SysbrkCall::Classify));
    assert_eq!(handled, 0);
    let after = |kind, handled: &mut i32| {
        rust_sysbrk_dispatch(8, 8, handled, Event::Classified { kind, out: 4096 })
    };
    assert_eq!(after(0, &mut handled), Step::Return(4096));
    assert_eq!(after(1, &mut handled), Step::Tail(SysbrkCall::Exit));
    assert_eq!(handled, 1);
    assert_eq!(after(2, &mut handled), Step::Abort(SysbrkCall::Abort, EINVAL_ADDR));
    assert_eq!(after(-1, &mut handled), Step::Abort(SysbrkCall::Abort, EINVAL_ADDR));
}

#[test]
fn vmbrk_kinds() {
    let mut handled = 7;
    assert_eq!(rust_vmbrk_dispatch(0, 8, &mut handled, Event::Enter), Step::Return(-22));
    assert_eq!(rust_vmbrk_dispatch(8, 0, &mut handled, Event::Enter), Step::Return(-22));
    assert_eq!(handled, 7);
    assert_eq!(rust_vmbrk_dispatch(8, 8, &mut handled, Event::Enter), Step::Call(VmbrkCall::Classify));
    assert_eq!(handled, 0);
    let after = |kind, handled: &mut i32| {
        rust_vmbrk_dispatch(8, 8, handled, Event::Classified { kind, out: -5 })
    };
    assert_eq!(after(0, &mut handled), Step::Return(-5));
    assert_eq!(after(1, &mut handled), Step::Tail(VmbrkCall::Exit));
    assert_eq!(handled, 1);
    assert_eq!(after(2, &mut handled), Step::Abort(VmbrkCall::Abort, -22));
    assert_eq!(after(-1, &mut handled), Step::Abort(VmbrkCall::Abort, -22));
}

#[test]
fn munlock_kinds() {
    let mut handled = 7;
    assert_eq!(rust_munlock_dispatch(0, 8, 8, &mut handled, Event::Enter), Step::Return(-22));
    assert_eq!(rust_munlock_dispatch(8, 0, 8, &mut handled, Event::Enter), Step::Return(-22));
    assert_eq!(rust_munlock_dispatch(8, 8, 0, &mut handled, Event::Enter), Step::Return(-22));
    assert_eq!(handled, 7);
    assert_eq!(rust_munlock_dispatch(8, 8, 8, &mut handled, Event::Enter), Step::Call(MunlockCall::Prepare));
    assert_eq!(handled, 0);
    let after = |kind, handled: &mut i32| {
        let out = MunlockOut { out: -5, start: 4096, len: 8192 };
        rust_munlock_dispatch(8, 8, 8, handled, Event::Classified { kind, out })
    };
    assert_eq!(after(0, &mut handled), Step::Return(-5));
    assert_eq!(after(1, &mut handled), Step::Tail(MunlockCall::Apply { start: 4096, len: 8192 }));
    assert_eq!(handled, 1);
    assert_eq!(after(2, &mut handled), Step::Reject(-22));
    assert_eq!(after(-1, &mut handled), Step::Reject(-22));
}

#[test]
fn ism_kinds() {
    let mut handled = 7;
    assert_eq!(rust_ism_dispatch(0, 8, &mut handled, Event::Enter), Step::Return(EINVAL_ADDR));
    assert_eq!(rust_ism_dispatch(8, 0, &mut handled, Event::Enter), Step::Return(EINVAL_ADDR));
    assert_eq!(handled, 7);
    assert_eq!(rust_ism_dispatch(8, 8, &mut handled, Event::Enter), Step::Call(IsmCall::Classify));
    assert_eq!(handled, 0);
    let after = |kind, handled: &mut i32| {
        rust_ism_dispatch(8, 8, handled, Event::Classified { kind, out: 4096 })
    };
    assert_eq!(after(0, &mut handled), Step::Return(4096));
    assert_eq!(after(1, &mut handled), Step::Tail(IsmCall::Link));
    assert_eq!(handled, 1);
    assert_eq!(after(2, &mut handled), Step::Abort(IsmCall::Abort, EINVAL_ADDR));
    assert_eq!(after(-1, &mut handled), Step::Abort(IsmCall::Abort, EINVAL_ADDR));
}

#[test]
fn mnf_kinds() {
    let mut handled = 7;
    assert_eq!(rust_mnf_dispatch(0, 8, &mut handled, Event::Enter), Step::Return(-22));
    assert_eq!(rust_mnf_dispatch(8, 0, &mut handled, Event::Enter), Step::Return(-22));
    assert_eq!(handled, 7);
    assert_eq!(rust_mnf_dispatch(8, 8, &mut handled, Event::Enter), Step::Call(MnfCall::Classify));
    assert_eq!(handled, 0);
    let after = |kind, handled: &mut i32| {
        rust_mnf_dispatch(8, 8, handled, Event::Classified { kind, out: -5 })
    };
    assert_eq!(after(0, &mut handled), Step::Return(-5));
    assert_eq!(after(1, &mut handled), Step::Tail(MnfCall::Mmap));
    assert_eq!(handled, 1);
    assert_eq!(after(2, &mut handled), Step::Abort(MnfCall::Abort, -22));
    assert_eq!(after(-1, &mut handled), Step::Abort(MnfCall::Abort, -22));
}

#[test]
fn kmp_kinds() {
    let mut handled = 7;
    assert_eq!(rust_kmp_dispatch(0, 8, &mut handled, Event::Enter), Step::Return(EINVAL_ADDR));
    assert_eq!(rust_kmp_dispatch(8, 0, &mut handled, Event::Enter), Step::Return(EINVAL_ADDR));
    assert_eq!(handled, 7);
    assert_eq!(rust_kmp_dispatch(8, 8, &mut handled, Event::Enter), Step::Call(KmpCall::Classify));
    assert_eq!(handled, 0);
    let after = |kind, handled: &mut i32| {
        rust_kmp_dispatch(8, 8, handled, Event::Classified { kind, out: 4096 })
    };
    assert_eq!(after(0, &mut handled), Step::Return(4096));
    assert_eq!(after(1, &mut handled), Step::Tail(KmpCall::Mmap));
    assert_eq!(handled, 1);
    assert_eq!(after(2, &mut handled), Step::Abort(KmpCall::Abort, EINVAL_ADDR));
    assert_eq!(after(-1, &mut handled), Step::Abort(KmpCall::Abort, EINVAL_ADDR));
}

#[test]
fn mprotect_kinds() {
    let mut handled = 7;
    assert_eq!(rust_mprotect_dispatch(0, 8, &mut handled, Event::Enter), Step::Return(-22));
    assert_eq!(rust_mprotect_dispatch(8, 0, &mut handled, Event::Enter), Step::Return(-22));
    assert_eq!(handled, 7);
    assert_eq!(rust_mprotect_dispatch(8, 8, &mut handled, Event::Enter), Step::Call(MprotectCall::Validate));
    assert_eq!(handled, 0);
    let after = |kind, handled: &mut i32| {
        rust_mprotect_dispatch(8, 8, handled, Event::Classified { kind, out: -5 })
    };
    assert_eq!(after(0, &mut handled), Step::Return(-5));
    assert_eq!(after(1, &mut handled), Step::Tail(MprotectCall::Apply));
    assert_eq!(handled, 1);
    assert_eq!(after(2, &mut handled), Step::Reject(-22));
    assert_eq!(after(-1, &mut handled), Step::Reject(-22));
}

#[test]
fn mseal_kinds() {
    let mut handled = 7;
    assert_eq!(rust_mseal_dispatch(0, 8, &mut handled, Event::Enter), Step::Return(-22));
    assert_eq!(rust_mseal_dispatch(8, 0, &mut handled, Event::Enter), Step::Return(-22));
    assert_eq!(handled, 7);
    assert_eq!(rust_mseal_dispatch(8, 8, &mut handled, Event::Enter), Step::Call(MsealCall::Validate));
    assert_eq!(handled, 0);
    let after = |kind, handled: &mut i32| {
        rust_mseal_dispatch(8, 8, handled, Event::Classified { kind, out: -5 })
    };
    assert_eq!(after(0, &mut handled), Step::Return(-5));
    assert_eq!(after(1, &mut handled), Step::Tail(MsealCall::Apply));
    assert_eq!(handled, 1);
    assert_eq!(after(2, &mut handled), Step::Reject(-22));
    assert_eq!(after(-1, &mut handled), Step::Reject(-22));
}

#[test]
fn mprot_kinds() {
    let mut handled = 7;
    assert_eq!(rust_mprot_dispatch(0, 8, &mut handled, Event::Enter), Step::Return(-22));
    assert_eq!(rust_mprot_dispatch(8, 0, &mut handled, Event::Enter), Step::Return(-22));
    assert_eq!(handled, 7);
    assert_eq!(rust_mprot_dispatch(8, 8, &mut handled, Event::Enter), Step::Call(MprotCall::Lock));
    assert_eq!(handled, 0);
    let after = |kind, handled: &mut i32| {
        rust_mprot_dispatch(8, 8, handled, Event::Classified { kind, out: -5 })
    };
    assert_eq!(after(0, &mut handled), Step::Return(-5));
    assert_eq!(after(1, &mut handled), Step::Tail(MprotCall::Walk));
    assert_eq!(handled, 1);
    assert_eq!(after(2, &mut handled), Step::Abort(MprotCall::Unlock, -22));
    assert_eq!(after(-1, &mut handled), Step::Abort(MprotCall::Unlock, -22));
}

#[test]
fn cp_kinds() {
    let mut handled = 7;
    assert_eq!(rust_cp_dispatch(0, 8, &mut handled, Event::Enter), Step::Return(-22));
    assert_eq!(rust_cp_dispatch(8, 0, &mut handled, Event::Enter), Step::Return(-22));
    assert_eq!(handled, 7);
    assert_eq!(rust_cp_dispatch(8, 8, &mut handled, Event::Enter), Step::Call(CpCall::Classify));
    assert_eq!(handled, 0);
    let after = |kind, handled: &mut i32| {
        rust_cp_dispatch(8, 8, handled, Event::Classified { kind, out: -5 })
    };
    assert_eq!(after(0, &mut handled), Step::Return(-5));
    assert_eq!(after(1, &mut handled), Step::Tail(CpCall::Huge));
    assert_eq!(after(2, &mut handled), Step::Tail(CpCall::Range));
    assert_eq!(handled, 1);
    assert_eq!(after(3, &mut handled), Step::Reject(-22));
    assert_eq!(after(-1, &mut handled), Step::Reject(-22));
}

#[test]
fn msync_kinds() {
    let mut handled = 7;
    assert_eq!(rust_msync_dispatch(0, 8, &mut handled, Event::Enter), Step::Return(-22));
    assert_eq!(rust_msync_dispatch(8, 0, &mut handled, Event::Enter), Step::Return(-22));
    assert_eq!(handled, 7);
    assert_eq!(rust_msync_dispatch(8, 8, &mut handled, Event::Enter), Step::Call(MsyncCall::Validate));
    assert_eq!(handled, 0);
    let after = |kind, handled: &mut i32| {
        rust_msync_dispatch(8, 8, handled, Event::Classified { kind, out: -5 })
    };
    assert_eq!(after(0, &mut handled), Step::Return(-5));
    assert_eq!(after(1, &mut handled), Step::Tail(MsyncCall::Apply));
    assert_eq!(handled, 1);
    assert_eq!(after(2, &mut handled), Step::Reject(-22));
    assert_eq!(after(-1, &mut handled), Step::Reject(-22));
}

#[test]
fn mincore_kinds() {
    let mut handled = 7;
    assert_eq!(rust_mincore_dispatch(0, 8, &mut handled, Event::Enter), Step::Return(-22));
    assert_eq!(rust_mincore_dispatch(8, 0, &mut handled, Event::Enter), Step::Return(-22));
    assert_eq!(handled, 7);
    assert_eq!(rust_mincore_dispatch(8, 8, &mut handled, Event::Enter), Step::Call(MincoreCall::Validate));
    assert_eq!(handled, 0);
    let after = |kind, handled: &mut i32| {
        rust_mincore_dispatch(8, 8, handled, Event::Classified { kind, out: -5 })
    };
    assert_eq!(after(0, &mut handled), Step::Return(-5));
    assert_eq!(after(1, &mut handled), Step::Tail(MincoreCall::Apply));
    assert_eq!(handled, 1);
    assert_eq!(after(2, &mut handled), Step::Reject(-22));
    assert_eq!(after(-1, &mut handled), Step::Reject(-22));
}

#[test]
fn amunmap_kinds() {
    let mut handled = 7;
    assert_eq!(rust_amunmap_dispatch(0, 8, &mut handled, Event::Enter), Step::Return(-22));
    assert_eq!(rust_amunmap_dispatch(8, 0, &mut handled, Event::Enter), Step::Return(-22));
    assert_eq!(handled, 7);
    assert_eq!(rust_amunmap_dispatch(8, 8, &mut handled, Event::Enter), Step::Call(AmunmapCall::Classify));
    assert_eq!(handled, 0);
    let after = |kind, handled: &mut i32| {
        rust_amunmap_dispatch(8, 8, handled, Event::Classified { kind, out: -5 })
    };
    assert_eq!(after(0, &mut handled), Step::Return(-5));
    assert_eq!(after(1, &mut handled), Step::Tail(AmunmapCall::Complete));
    assert_eq!(handled, 1);
    assert_eq!(after(2, &mut handled), Step::Abort(AmunmapCall::Abort, -22));
    assert_eq!(after(-1, &mut handled), Step::Abort(AmunmapCall::Abort, -22));
}

#[test]
fn ur_kinds() {
    let mut handled = 7;
    assert_eq!(rust_ur_dispatch(0, 8, &mut handled, Event::Enter), Step::Return(()));
    assert_eq!(rust_ur_dispatch(8, 0, &mut handled, Event::Enter), Step::Return(()));
    assert_eq!(handled, 7);
    assert_eq!(rust_ur_dispatch(8, 8, &mut handled, Event::Enter), Step::Call(UrCall::Classify));
    assert_eq!(handled, 0);
    let after = |kind, handled: &mut i32| {
        rust_ur_dispatch(8, 8, handled, Event::Classified { kind, out: () })
    };
    assert_eq!(after(0, &mut handled), Step::Return(()));
    assert_eq!(after(1, &mut handled), Step::Tail(UrCall::Apply));
    assert_eq!(handled, 1);
    assert_eq!(after(2, &mut handled), Step::Abort(UrCall::Abort, ()));
    assert_eq!(after(-1, &mut handled), Step::Abort(UrCall::Abort, ()));
}

#[test]
fn gather_kinds() {
    let mut handled = 7;
    assert_eq!(rust_gather_dispatch(0, 8, &mut handled, Event::Enter), Step::Return(-22));
    assert_eq!(rust_gather_dispatch(8, 0, &mut handled, Event::Enter), Step::Return(-22));
    assert_eq!(handled, 7);
    assert_eq!(rust_gather_dispatch(8, 8, &mut handled, Event::Enter), Step::Call(GatherCall::Classify));
    assert_eq!(handled, 0);
    let after = |kind, handled: &mut i32| {
        rust_gather_dispatch(8, 8, handled, Event::Classified { kind, out: -5 })
    };
    assert_eq!(after(0, &mut handled), Step::Return(-5));
    assert_eq!(after(1, &mut handled), Step::Tail(GatherCall::Loop));
    assert_eq!(handled, 1);
    assert_eq!(after(2, &mut handled), Step::Abort(GatherCall::Abort, -22));
    assert_eq!(after(-1, &mut handled), Step::Abort(GatherCall::Abort, -22));
}

#[test]
fn vcomp_kinds() {
    let mut handled = 7;
    assert_eq!(rust_vcomp_dispatch(0, 8, &mut handled, Event::Enter), Step::Return(()));
    assert_eq!(rust_vcomp_dispatch(8, 0, &mut handled, Event::Enter), Step::Return(()));
    assert_eq!(handled, 7);
    assert_eq!(rust_vcomp_dispatch(8, 8, &mut handled, Event::Enter), Step::Call(VcompCall::Classify));
    assert_eq!(handled, 0);
    let after = |kind, handled: &mut i32| {
        rust_vcomp_dispatch(8, 8, handled, Event::Classified { kind, out: () })
    };
    assert_eq!(after(0, &mut handled), Step::Return(()));
    assert_eq!(after(1, &mut handled), Step::Tail(VcompCall::Unmap));
    assert_eq!(handled, 1);
    assert_eq!(after(2, &mut handled), Step::Abort(VcompCall::Abort, ()));
    assert_eq!(after(-1, &mut handled), Step::Abort(VcompCall::Abort, ()));
}

#[test]
fn clean_kinds() {
    let mut handled = 7;
    assert_eq!(rust_clean_dispatch(0, 8, &mut handled, Event::Enter), Step::Return(()));
    assert_eq!(rust_clean_dispatch(8, 0, &mut handled, Event::Enter), Step::Return(()));
    assert_eq!(handled, 7);
    assert_eq!(rust_clean_dispatch(8, 8, &mut handled, Event::Enter), Step::Call(CleanCall::Classify));
    assert_eq!(handled, 0);
    let after = |kind, handled: &mut i32| {
        rust_clean_dispatch(8, 8, handled, Event::Classified { kind, out: () })
    };
    assert_eq!(after(0, &mut handled), Step::Return(()));
    assert_eq!(after(1, &mut handled), Step::Tail(CleanCall::Close));
    assert_eq!(handled, 1);
    assert_eq!(after(2, &mut handled), Step::Abort(CleanCall::Abort, ()));
    assert_eq!(after(-1, &mut handled), Step::Abort(CleanCall::Abort, ()));
}

#[test]
fn vabort_kinds() {
    let mut handled = 7;
    assert_eq!(rust_vabort_dispatch(0, 8, &mut handled, Event::Enter), Step::Return(()));
    assert_eq!(rust_vabort_dispatch(8, 0, &mut handled, Event::Enter), Step::Return(()));
    assert_eq!(handled, 7);
    assert_eq!(rust_vabort_dispatch(8, 8, &mut handled, Event::Enter), Step::Call(VabortCall::Classify));
    assert_eq!(handled, 0);
    let after = |kind, handled: &mut i32| {
        rust_vabort_dispatch(8, 8, handled, Event::Classified { kind, out: () })
    };
    assert_eq!(after(0, &mut handled), Step::Return(()));
    assert_eq!(after(1, &mut handled), Step::Tail(VabortCall::Reattach));
    assert_eq!(after(2, &mut handled), Step::Tail(VabortCall::Gap));
    assert_eq!(handled, 1);
    assert_eq!(after(3, &mut handled), Step::Abort(VabortCall::Abort, ()));
    assert_eq!(after(-1, &mut handled), Step::Abort(VabortCall::Abort, ()));
}

#[test]
fn vmunmap_kinds() {
    let mut handled = 7;
    assert_eq!(rust_vmunmap_dispatch(0, 8, &mut handled, Event::Enter), Step::Return(-22));
    assert_eq!(rust_vmunmap_dispatch(8, 0, &mut handled, Event::Enter), Step::Return(-22));
    assert_eq!(handled, 7);
    assert_eq!(rust_vmunmap_dispatch(8, 8, &mut handled, Event::Enter), Step::Call(VmunmapCall::Classify));
    assert_eq!(handled, 0);
    let after = |kind, handled: &mut i32| {
        rust_vmunmap_dispatch(8, 8, handled, Event::Classified { kind, out: -5 })
    };
    assert_eq!(after(0, &mut handled), Step::Return(-5));
    assert_eq!(after(1, &mut handled), Step::Tail(VmunmapCall::Apply));
    assert_eq!(handled, 1);
    assert_eq!(after(2, &mut handled), Step::Abort(VmunmapCall::Abort, -22));
    assert_eq!(after(-1, &mut handled), Step::Abort(VmunmapCall::Abort, -22));
}

#[test]
fn emmap_kinds() {
    let mut handled = 7;
    assert_eq!(rust_emmap_dispatch(0, 8, &mut handled, Event::Enter), Step::Return(()));
    assert_eq!(rust_emmap_dispatch(8, 0, &mut handled, Event::Enter), Step::Return(()));
    assert_eq!(handled, 7);
    assert_eq!(rust_emmap_dispatch(8, 8, &mut handled, Event::Enter), Step::Call(EmmapCall::Classify));
    assert_eq!(handled, 0);
    let after = |kind, handled: &mut i32| {
        rust_emmap_dispatch(8, 8, handled, Event::Classified { kind, out: () })
    };
    assert_eq!(after(0, &mut handled), Step::Tail(EmmapCall::Empty));
    assert_eq!(after(1, &mut handled), Step::Tail(EmmapCall::Unmap));
    assert_eq!(handled, 1);
    assert_eq!(after(2, &mut handled), Step::Abort(EmmapCall::Abort, ()));
    assert_eq!(after(-1, &mut handled), Step::Abort(EmmapCall::Abort, ()));
}

#[test]
fn dmunmap_kinds() {
    let mut handled = 7;
    assert_eq!(rust_dmunmap_dispatch(0, 8, &mut handled, Event::Enter), Step::Return(-22));
    assert_eq!(rust_dmunmap_dispatch(8, 0, &mut handled, Event::Enter), Step::Return(-22));
    assert_eq!(handled, 7);
    assert_eq!(rust_dmunmap_dispatch(8, 8, &mut handled, Event::Enter), Step::Call(DmunmapCall::Classify));
    assert_eq!(handled, 0);
    let after = |kind, handled: &mut i32| {
        rust_dmunmap_dispatch(8, 8, handled, Event::Classified { kind, out: () })
    };
    assert_eq!(after(0, &mut handled), Step::Tail(DmunmapCall::Apply));
    assert_eq!(handled, 1);
    assert_eq!(after(1, &mut handled), Step::Abort(DmunmapCall::Abort, -22));
    assert_eq!(after(-1, &mut handled), Step::Abort(DmunmapCall::Abort, -22));
}

#[test]
fn vmerge_kinds() {
    let mut handled = 7;
    assert_eq!(rust_vmerge_dispatch(0, 8, &mut handled, Event::Enter), Step::Return(0));
    assert_eq!(rust_vmerge_dispatch(8, 0, &mut handled, Event::Enter), Step::Return(0));
    assert_eq!(handled, 7);
    assert_eq!(rust_vmerge_dispatch(8, 8, &mut handled, Event::Enter), Step::Call(VmergeCall::Classify));
    assert_eq!(handled, 0);
    let after = |kind, handled: &mut i32| {
        rust_vmerge_dispatch(8, 8, handled, Event::Classified { kind, out: () })
    };
    assert_eq!(after(0, &mut handled), Step::Return(0));
    assert_eq!(after(1, &mut handled), Step::Tail(VmergeCall::Expand));
    assert_eq!(handled, 1);
    assert_eq!(after(2, &mut handled), Step::Reject(0));
    assert_eq!(after(-1, &mut handled), Step::Reject(0));
}

#[test]
fn estk_kinds() {
    let mut handled = 7;
    assert_eq!(rust_estk_dispatch(0, 8, &mut handled, Event::Enter), Step::Return(0));
    assert_eq!(rust_estk_dispatch(8, 0, &mut handled, Event::Enter), Step::Return(0));
    assert_eq!(handled, 7);
    assert_eq!(rust_estk_dispatch(8, 8, &mut handled, Event::Enter), Step::Call(EstkCall::Classify));
    assert_eq!(handled, 0);
    let after = |kind, handled: &mut i32| {
        rust_estk_dispatch(8, 8, handled, Event::Classified { kind, out: () })
    };
    assert_eq!(after(0, &mut handled), Step::Return(0));
    assert_eq!(after(1, &mut handled), Step::Tail(EstkCall::Downgrade));
    assert_eq!(handled, 1);
    assert_eq!(after(2, &mut handled), Step::Abort(EstkCall::Abort, 0));
    assert_eq!(after(-1, &mut handled), Step::Abort(EstkCall::Abort, 0));
}

#[test]
fn vmod_kinds() {
    let mut handled = 7;
    assert_eq!(rust_vmod_dispatch(0, 8, &mut handled, Event::Enter), Step::Return(0));
    assert_eq!(rust_vmod_dispatch(8, 0, &mut handled, Event::Enter), Step::Return(0));
    assert_eq!(handled, 7);
    assert_eq!(rust_vmod_dispatch(8, 8, &mut handled, Event::Enter), Step::Call(VmodCall::Classify));
    assert_eq!(handled, 0);
    let after = |kind, handled: &mut i32| {
        rust_vmod_dispatch(8, 8, handled, Event::Classified { kind, out: 4096 })
    };
    assert_eq!(after(0, &mut handled), Step::Return(4096));
    assert_eq!(after(1, &mut handled), Step::Tail(VmodCall::Split));
    assert_eq!(handled, 1);
    assert_eq!(after(2, &mut handled), Step::Reject(0));
    assert_eq!(after(-1, &mut handled), Step::Reject(0));
}

#[test]
fn vsh_kinds() {
    let mut handled = 7;
    assert_eq!(rust_vsh_dispatch(0, 8, &mut handled, Event::Enter), Step::Return(-22));
    assert_eq!(rust_vsh_dispatch(8, 0, &mut handled, Event::Enter), Step::Return(-22));
    assert_eq!(handled, 7);
    assert_eq!(rust_vsh_dispatch(8, 8, &mut handled, Event::Enter), Step::Call(VshCall::Classify));
    assert_eq!(handled, 0);
    let after = |kind, handled: &mut i32| {
        rust_vsh_dispatch(8, 8, handled, Event::Classified { kind, out: -5 })
    };
    assert_eq!(after(0, &mut handled), Step::Return(-5));
    assert_eq!(after(1, &mut handled), Step::Tail(VshCall::Apply));
    assert_eq!(handled, 1);
    assert_eq!(after(2, &mut handled), Step::Reject(-22));
    assert_eq!(after(-1, &mut handled), Step::Reject(-22));
}

#[test]
fn cmerge_kinds() {
    let mut handled = 7;
    assert_eq!(rust_cmerge_dispatch(0, 8, &mut handled, Event::Enter), Step::Return(-22));
    assert_eq!(rust_cmerge_dispatch(8, 0, &mut handled, Event::Enter), Step::Return(-22));
    assert_eq!(handled, 7);
    assert_eq!(rust_cmerge_dispatch(8, 8, &mut handled, Event::Enter), Step::Call(CmergeCall::Classify));
    assert_eq!(handled, 0);
    let after = |kind, handled: &mut i32| {
        rust_cmerge_dispatch(8, 8, handled, Event::Classified { kind, out: -5 })
    };
    assert_eq!(after(0, &mut handled), Step::Return(-5));
    assert_eq!(after(1, &mut handled), Step::Tail(CmergeCall::Apply));
    assert_eq!(handled, 1);
    assert_eq!(after(2, &mut handled), Step::Reject(-22));
    assert_eq!(after(-1, &mut handled), Step::Reject(-22));
}

#[test]
fn exdn_kinds() {
    let mut handled = 7;
    assert_eq!(rust_exdn_dispatch(0, 8, &mut handled, Event::Enter), Step::Return(-22));
    assert_eq!(rust_exdn_dispatch(8, 0, &mut handled, Event::Enter), Step::Return(-22));
    assert_eq!(handled, 7);
    assert_eq!(rust_exdn_dispatch(8, 8, &mut handled, Event::Enter), Step::Call(ExdnCall::Classify));
    assert_eq!(handled, 0);
    let after = |kind, handled: &mut i32| {
        rust_exdn_dispatch(8, 8, handled, Event::Classified { kind, out: -5 })
    };
    assert_eq!(after(0, &mut handled), Step::Return(-5));
    assert_eq!(after(1, &mut handled), Step::Tail(ExdnCall::Apply));
    assert_eq!(handled, 1);
    assert_eq!(after(2, &mut handled), Step::Abort(ExdnCall::Abort, -22));
    assert_eq!(after(-1, &mut handled), Step::Abort(ExdnCall::Abort, -22));
}

#[test]
fn ivs_kinds() {
    let mut handled = 7;
    assert_eq!(rust_ivs_dispatch(0, 8, &mut handled, Event::Enter), Step::Return(-22));
    assert_eq!(rust_ivs_dispatch(8, 0, &mut handled, Event::Enter), Step::Return(-22));
    assert_eq!(handled, 7);
    assert_eq!(rust_ivs_dispatch(8, 8, &mut handled, Event::Enter), Step::Call(IvsCall::Classify));
    assert_eq!(handled, 0);
    let after = |kind, handled: &mut i32| {
        rust_ivs_dispatch(8, 8, handled, Event::Classified { kind, out: -5 })
    };
    assert_eq!(after(0, &mut handled), Step::Return(-5));
    assert_eq!(after(1, &mut handled), Step::Tail(IvsCall::Link));
    assert_eq!(handled, 1);
    assert_eq!(after(2, &mut handled), Step::Abort(IvsCall::Abort, -22));
    assert_eq!(after(-1, &mut handled), Step::Abort(IvsCall::Abort, -22));
}

#[test]
fn svma_kinds() {
    let mut handled = 7;
    assert_eq!(rust_svma_dispatch(0, 8, &mut handled, Event::Enter), Step::Return(-22));
    assert_eq!(rust_svma_dispatch(8, 0, &mut handled, Event::Enter), Step::Return(-22));
    assert_eq!(handled, 7);
    assert_eq!(rust_svma_dispatch(8, 8, &mut handled, Event::Enter), Step::Call(SvmaCall::Classify));
    assert_eq!(handled, 0);
    let after = |kind, handled: &mut i32| {
        rust_svma_dispatch(8, 8, handled, Event::Classified { kind, out: -5 })
    };
    assert_eq!(after(0, &mut handled), Step::Return(-5));
    assert_eq!(after(1, &mut handled), Step::Tail(SvmaCall::Apply));
    assert_eq!(handled, 1);
    assert_eq!(after(2, &mut handled), Step::Abort(SvmaCall::Abort, -22));
    assert_eq!(after(-1, &mut handled), Step::Abort(SvmaCall::Abort, -22));
}

#[test]
fn vlink_kinds() {
    let mut handled = 7;
    assert_eq!(rust_vlink_dispatch(0, 8, &mut handled, Event::Enter), Step::Return(-22));
    assert_eq!(rust_vlink_dispatch(8, 0, &mut handled, Event::Enter), Step::Return(-22));
    assert_eq!(handled, 7);
    assert_eq!(rust_vlink_dispatch(8, 8, &mut handled, Event::Enter), Step::Call(VlinkCall::Classify));
    assert_eq!(handled, 0);
    let after = |kind, handled: &mut i32| {
        rust_vlink_dispatch(8, 8, handled, Event::Classified { kind, out: -5 })
    };
    assert_eq!(after(0, &mut handled), Step::Return(-5));
    assert_eq!(after(1, &mut handled), Step::Tail(VlinkCall::Store));
    assert_eq!(handled, 1);
    assert_eq!(after(2, &mut handled), Step::Abort(VlinkCall::Abort, -22));
    assert_eq!(after(-1, &mut handled), Step::Abort(VlinkCall::Abort, -22));
}

#[test]
fn cvma_kinds() {
    let mut handled = 7;
    assert_eq!(rust_cvma_dispatch(0, 8, &mut handled, Event::Enter), Step::Return(0));
    assert_eq!(rust_cvma_dispatch(8, 0, &mut handled, Event::Enter), Step::Return(0));
    assert_eq!(handled, 7);
    assert_eq!(rust_cvma_dispatch(8, 8, &mut handled, Event::Enter), Step::Call(CvmaCall::Classify));
    assert_eq!(handled, 0);
    let after = |kind, handled: &mut i32| {
        rust_cvma_dispatch(8, 8, handled, Event::Classified { kind, out: 4096 })
    };
    assert_eq!(after(0, &mut handled), Step::Return(4096));
    assert_eq!(after(1, &mut handled), Step::Tail(CvmaCall::Dup));
    assert_eq!(handled, 1);
    assert_eq!(after(2, &mut handled), Step::Reject(0));
    assert_eq!(after(-1, &mut handled), Step::Reject(0));
}

#[test]
fn asg_kinds() {
    let mut handled = 7;
    assert_eq!(rust_asg_dispatch(0, 8, &mut handled, Event::Enter), Step::Return(-22));
    assert_eq!(rust_asg_dispatch(8, 0, &mut handled, Event::Enter), Step::Return(-22));
    assert_eq!(handled, 7);
    assert_eq!(rust_asg_dispatch(8, 8, &mut handled, Event::Enter), Step::Call(AsgCall::Classify));
    assert_eq!(handled, 0);
    let after = |kind, handled: &mut i32| {
        rust_asg_dispatch(8, 8, handled, Event::Classified { kind, out: -5 })
    };
    assert_eq!(after(0, &mut handled), Step::Return(-5));
    assert_eq!(after(1, &mut handled), Step::Tail(AsgCall::Sec));
    assert_eq!(handled, 1);
    assert_eq!(after(2, &mut handled), Step::Abort(AsgCall::Abort, -22));
    assert_eq!(after(-1, &mut handled), Step::Abort(AsgCall::Abort, -22));
}

#[test]
fn dav_kinds() {
    let mut handled = 7;
    assert_eq!(rust_dav_dispatch(0, 8, &mut handled, Event::Enter), Step::Return(-22));
    assert_eq!(rust_dav_dispatch(8, 0, &mut handled, Event::Enter), Step::Return(-22));
    assert_eq!(handled, 7);
    assert_eq!(rust_dav_dispatch(8, 8, &mut handled, Event::Enter), Step::Call(DavCall::Classify));
    assert_eq!(handled, 0);
    let after = |kind, handled: &mut i32| {
        rust_dav_dispatch(8, 8, handled, Event::Classified { kind, out: -5 })
    };
    assert_eq!(after(0, &mut handled), Step::Return(-5));
    assert_eq!(after(1, &mut handled), Step::Tail(DavCall::Clone));
    assert_eq!(handled, 1);
    assert_eq!(after(2, &mut handled), Step::Abort(DavCall::Abort, -22));
    assert_eq!(after(-1, &mut handled), Step::Abort(DavCall::Abort, -22));
}

#[test]
fn fma_kinds() {
    let mut handled = 7;
    assert_eq!(rust_fma_dispatch(0, 8, &mut handled, Event::Enter), Step::Return(0));
    assert_eq!(rust_fma_dispatch(8, 0, &mut handled, Event::Enter), Step::Return(0));
    assert_eq!(handled, 7);
    assert_eq!(rust_fma_dispatch(8, 8, &mut handled, Event::Enter), Step::Call(FmaCall::Classify));
    assert_eq!(handled, 0);
    let after = |kind, handled: &mut i32| {
        rust_fma_dispatch(8, 8, handled, Event::Classified { kind, out: 4096 })
    };
    assert_eq!(after(0, &mut handled), Step::Return(4096));
    assert_eq!(after(1, &mut handled), Step::Tail(FmaCall::Prev));
    assert_eq!(handled, 1);
    assert_eq!(after(2, &mut handled), Step::Abort(FmaCall::Abort, 0));
    assert_eq!(after(-1, &mut handled), Step::Abort(FmaCall::Abort, 0));
}

#[test]
fn vlf_kinds() {
    let mut handled = 7;
    assert_eq!(rust_vlf_dispatch(0, 8, &mut handled, Event::Enter), Step::Return(()));
    assert_eq!(rust_vlf_dispatch(8, 0, &mut handled, Event::Enter), Step::Return(()));
    assert_eq!(handled, 7);
    assert_eq!(rust_vlf_dispatch(8, 8, &mut handled, Event::Enter), Step::Call(VlfCall::Classify));
    assert_eq!(handled, 0);
    let after = |kind, handled: &mut i32| {
        rust_vlf_dispatch(8, 8, handled, Event::Classified { kind, out: () })
    };
    assert_eq!(after(0, &mut handled), Step::Return(()));
    assert_eq!(after(1, &mut handled), Step::Tail(VlfCall::Link));
    assert_eq!(handled, 1);
    assert_eq!(after(2, &mut handled), Step::Abort(VlfCall::Abort, ()));
    assert_eq!(after(-1, &mut handled), Step::Abort(VlfCall::Abort, ()));
}

#[test]
fn spw_kinds() {
    let mut handled = 7;
    assert_eq!(rust_spw_dispatch(0, 8, &mut handled, Event::Enter), Step::Return(-22));
    assert_eq!(rust_spw_dispatch(8, 0, &mut handled, Event::Enter), Step::Return(-22));
    assert_eq!(handled, 7);
    assert_eq!(rust_spw_dispatch(8, 8, &mut handled, Event::Enter), Step::Call(SpwCall::Classify));
    assert_eq!(handled, 0);
    let after = |kind, handled: &mut i32| {
        rust_spw_dispatch(8, 8, handled, Event::Classified { kind, out: -5 })
    };
    assert_eq!(after(0, &mut handled), Step::Return(-5));
    assert_eq!(after(1, &mut handled), Step::Tail(SpwCall::Apply));
    assert_eq!(handled, 1);
    assert_eq!(after(2, &mut handled), Step::Abort(SpwCall::Abort, -22));
    assert_eq!(after(-1, &mut handled), Step::Abort(SpwCall::Abort, -22));
}

#[test]
fn rvma_kinds() {
    let mut handled = 7;
    assert_eq!(rust_rvma_dispatch(0, 8, &mut handled, Event::Enter), Step::Return(()));
    assert_eq!(rust_rvma_dispatch(8, 0, &mut handled, Event::Enter), Step::Return(()));
    assert_eq!(handled, 7);
    assert_eq!(rust_rvma_dispatch(8, 8, &mut handled, Event::Enter), Step::Call(RvmaCall::Classify));
    assert_eq!(handled, 0);
    let after = |kind, handled: &mut i32| {
        rust_rvma_dispatch(8, 8, handled, Event::Classified { kind, out: () })
    };
    assert_eq!(after(0, &mut handled), Step::Tail(RvmaCall::Anon));
    assert_eq!(after(1, &mut handled), Step::Tail(RvmaCall::File));
    assert_eq!(handled, 1);
    assert_eq!(after(2, &mut handled), Step::Abort(RvmaCall::Abort, ()));
    assert_eq!(after(-1, &mut handled), Step::Abort(RvmaCall::Abort, ()));
}

#[test]
fn vme_kinds() {
    let mut handled = 7;
    assert_eq!(rust_vme_dispatch(0, 8, &mut handled, Event::Enter), Step::Return(0));
    assert_eq!(rust_vme_dispatch(8, 0, &mut handled, Event::Enter), Step::Return(0));
    assert_eq!(handled, 7);
    assert_eq!(rust_vme_dispatch(8, 8, &mut handled, Event::Enter), Step::Call(VmeCall::Classify));
    assert_eq!(handled, 0);
    let after = |kind, handled: &mut i32| {
        rust_vme_dispatch(8, 8, handled, Event::Classified { kind, out: () })
    };
    assert_eq!(after(0, &mut handled), Step::Tail(VmeCall::Apply));
    assert_eq!(handled, 1);
    assert_eq!(after(1, &mut handled), Step::Abort(VmeCall::Abort, 0));
    assert_eq!(after(-1, &mut handled), Step::Abort(VmeCall::Abort, 0));
}

#[test]
fn only_the_first_counts_as_first() {
    let mut seen = 0;
    assert!(count_first(&mut seen));
    assert!(!count_first(&mut seen));
    assert_eq!(seen, 2);
    seen = u32::MAX;
    assert!(!count_first(&mut seen));
    assert_eq!(seen, 0);
    assert!(count_first(&mut seen));
}
