//! Searching for unmapped ranges.

use kernel_mm::error::ENOMEM_ADDR;
use kernel_mm::mm::unmap::{announce, rust_vm_unmapped_area, UnmappedInfo, Vma, TOPDOWN};

fn vma(start: u64, end: u64) -> Vma {
    Vma { start, end, start_gap: start, end_gap: end }
}

fn info(flags: u64, length: u64) -> UnmappedInfo {
    UnmappedInfo {
        flags,
        length,
        low_limit: 0x1000,
        high_limit: 0x100000,
        align_mask: 0,
        align_offset: 0,
        start_gap: 0,
    }
}

fn sample() -> Vec<Vma> {
    vec![vma(0x1000, 0x4000), vma(0x8000, 0x9000), vma(0xf0000, 0xff000)]
}

fn search(info: UnmappedInfo, vmas: &Vec<Vma>) -> u64 {
    rust_vm_unmapped_area(Some(info), Some(vmas), 0x1000)
}

#[test]
fn lowest_range_from_below() {
    let vmas = sample();
    assert_eq!(search(info(0, 0x1000), &vmas), 0x4000);
    assert_eq!(search(info(0, 0x4000), &vmas), 0x4000);
    assert_eq!(search(info(0, 0x5000), &vmas), 0x9000);
    assert_eq!(search(info(0, 0xe7000), &vmas), 0x9000);
    assert_eq!(search(info(0, 0xe8000), &vmas), ENOMEM_ADDR);
}

#[test]
fn highest_range_from_above() {
    let vmas = sample();
    assert_eq!(search(info(TOPDOWN, 0x1000), &vmas), 0xff000);
    assert_eq!(search(info(TOPDOWN, 0x2000), &vmas), 0xee000);
    assert_eq!(search(info(TOPDOWN, 0xe7000), &vmas), 0x9000);
    assert_eq!(search(info(TOPDOWN, 0xe8000), &vmas), ENOMEM_ADDR);
}

#[test]
fn empty_address_space() {
    let vmas = Vec::new();
    assert_eq!(search(info(0, 0x1000), &vmas), 0x1000);
    assert_eq!(search(info(TOPDOWN, 0x1000), &vmas), 0xff000);
    assert_eq!(search(info(0, 0xff000), &vmas), 0x1000);
    assert_eq!(search(info(0, 0xff001), &vmas), ENOMEM_ADDR);
}

#[test]
fn ranges_are_aligned() {
    let vmas = sample();
    let wide = UnmappedInfo { align_mask: 0xffff, ..info(0, 0x1000) };
    assert_eq!(search(wide, &vmas), 0x10000);
    let off = UnmappedInfo { align_offset: 0x5000, ..wide };
    assert_eq!(search(off, &vmas), 0x5000);
    let top = UnmappedInfo { flags: TOPDOWN, ..wide };
    assert_eq!(search(top, &vmas), 0xe0000);
    let top = UnmappedInfo { flags: TOPDOWN, ..off };
    assert_eq!(search(top, &vmas), 0xe5000);
}

#[test]
fn guard_gaps_stay_unmapped() {
    let guarded = Vma { start: 0x8000, end: 0x9000, start_gap: 0x6000, end_gap: 0xa000 };
    let vmas = vec![guarded];
    assert_eq!(search(info(0, 0x5000), &vmas), 0x1000);
    assert_eq!(search(info(0, 0x6000), &vmas), 0xa000);
    let low = UnmappedInfo { high_limit: 0x9000, ..info(TOPDOWN, 0x1000) };
    assert_eq!(search(low, &vmas), 0x5000);
    let gap = UnmappedInfo { start_gap: 0x2000, ..info(0, 0x1000) };
    assert_eq!(search(gap, &vmas), 0x3000);
}

#[test]
fn limits_hold() {
    let vmas = sample();
    let low = UnmappedInfo { low_limit: 0x6000, ..info(0, 0x2000) };
    assert_eq!(search(low, &vmas), 0x6000);
    let low = UnmappedInfo { low_limit: 0x8800, ..info(0, 0x2000) };
    assert_eq!(search(low, &vmas), 0x9000);
    let high = UnmappedInfo { high_limit: 0x7000, ..info(TOPDOWN, 0x2000) };
    assert_eq!(search(high, &vmas), 0x5000);
    assert_eq!(rust_vm_unmapped_area(Some(info(0, 0x1000)), Some(&vmas), 0xa000), 0xa000);
}

#[test]
fn impossible_requests_fail() {
    let vmas = sample();
    assert_eq!(rust_vm_unmapped_area(None, Some(&vmas), 0), ENOMEM_ADDR);
    assert_eq!(rust_vm_unmapped_area(Some(info(0, 0x1000)), None, 0), ENOMEM_ADDR);
    assert_eq!(search(info(0, 0), &vmas), ENOMEM_ADDR);
    let crossed = UnmappedInfo { low_limit: 0x9000, high_limit: 0x8000, ..info(0, 1) };
    assert_eq!(search(crossed, &vmas), ENOMEM_ADDR);
    let wraps = UnmappedInfo { align_mask: u64::MAX, ..info(0, 0x1000) };
    assert_eq!(search(wraps, &vmas), ENOMEM_ADDR);
    assert_eq!(ENOMEM_ADDR, (-12i64) as u64);
}

#[test]
fn unmapped_announcement() {
    assert_eq!(
        announce(),
        "rust-mmap: vm_unmapped_area first-fit/topdown and mmap/munmap/brk/mprotect/mremap/madvise sequencer\n"
    );
}
