//! Sequencers of the mapping system calls.
//!
//! Submodules follow what the calls do: install mappings, unmap and tear down,
//! `brk`, `mprotect`, `mremap`, `madvise`, `mlock`, `msync` and `mincore`, and
//! operations on single mappings.

pub mod advise;
pub mod brk;
pub mod lock;
pub mod map;
pub mod protect;
pub mod remap;
pub mod sync;
pub mod unmap;
pub mod vma;

use vstd::prelude::*;
use crate::mm::mtree;
use crate::mm::mtree::{announce_once, Announced};

verus! {

/// What is logged when the sequencers take over.
pub const ANNOUNCEMENT: &'static str =
    "rust-mmap: vm_unmapped_area first-fit/topdown and mmap/munmap/brk/mprotect/mremap/madvise/mmap_region/mprotect_fixup/mseal/mlock/mlock_fixup/mprotect_walk/munlock/mlockall/msync/mincore/vector_madvise/madvise_do/madvise_walk/madvise_vma/madvise_dontneed/madvise_update/vma_merge/mmap_new/sys_brk/process_madvise/vm_brk/vma_merge_existing/vma_expand/expand_stack/vma_modify/vma_shrink/commit_merge/remap_file_pages/change_protection/expand_downwards/insert_vm_struct/split_vma/vma_link/copy_vma/do_vmi_align_munmap/unmap_region/install_special_mapping/vms_gather/vms_complete/acct_stack_growth/vms_clean_up/vms_abort/mmap_setup/mmap_new_file/dup_anon_vma/find_mergeable_anon_vma/vma_link_file/vm_munmap/ksys_mmap_pgoff/split_vma_limit/unlink_file_vma_batch_add/exit_mmap/find_vma_prev/do_munmap/remove_vma/vma_merge_extend sequencer\n";

/// The messages to log when the sequencers take over: their own, and that of the
/// range tree the first time.
pub fn announce(seen: &mut Announced) -> (r: (&'static str, Option<&'static str>))
    ensures
        r.0 == ANNOUNCEMENT,
        r.1 == if old(seen).count == 0 {
            Some(mtree::ANNOUNCEMENT)
        } else {
            None
        },
        final(seen).count == if old(seen).count == u32::MAX {
            0
        } else {
            (old(seen).count + 1) as u32
        },
{
    let tree = announce_once(seen);
    (ANNOUNCEMENT, tree)
}

} // verus!
