//! Reserving, binding and giving up address ranges.

use kernel_mm::allocator::request::{AllocError, Buffer, Flags, Layout, NumaNode};
use kernel_mm::allocator::vmalloc::{
    announce, realloc, realloc_done, rust_vmap_alloc, rust_vmap_find, rust_vmap_init,
    rust_vmap_insert, rust_vmap_remove, rust_vmap_span, ReallocStep, Slot, Vmap, FAILED, MAX_SLOTS,
};

const LO: u64 = 0x10000;
const HI: u64 = 0x100000;

fn space() -> Vmap {
    let mut v = Vmap::new(4096);
    rust_vmap_init(&mut v, LO, HI);
    v
}

fn open(start: u64, end: u64) -> Slot {
    Slot { start, end, vm: 0, busy: false }
}

fn held(start: u64, end: u64, vm: u64) -> Slot {
    Slot { start, end, vm, busy: true }
}

#[test]
fn a_new_space_has_no_slots() {
    let mut v = Vmap::new(4096);
    assert_eq!(v.slots.len(), 0);
    assert_eq!(rust_vmap_alloc(&mut v, 4096, 4096, 0, u64::MAX), 0);
    assert_eq!(rust_vmap_find(&v, 0), 0);
    rust_vmap_init(&mut v, LO, HI);
    assert_eq!(v.slots, vec![open(LO, HI)]);
    rust_vmap_init(&mut v, 0, 16);
    assert_eq!(v.slots, vec![open(0, 16)]);
}

#[test]
fn reservations_are_first_fit() {
    let mut v = space();
    assert_eq!(rust_vmap_alloc(&mut v, 0x2000, 1, LO, HI), LO);
    assert_eq!(rust_vmap_alloc(&mut v, 0x1000, 1, LO, HI), LO + 0x2000);
    assert_eq!(
        v.slots,
        vec![
            held(LO, LO + 0x2000, 0),
            held(LO + 0x2000, LO + 0x3000, 0),
            open(LO + 0x3000, HI)
        ]
    );
    assert_eq!(rust_vmap_remove(&mut v, LO), 0);
    assert_eq!(rust_vmap_alloc(&mut v, 0x3000, 1, LO, HI), LO + 0x3000);
    assert_eq!(rust_vmap_alloc(&mut v, 0x1000, 1, LO, HI), LO);
}

#[test]
fn reservations_are_aligned_and_inside_their_limits() {
    let mut v = space();
    assert_eq!(rust_vmap_alloc(&mut v, 0x1000, 0x8000, LO + 1, HI), 0x18000);
    assert_eq!(v.slots, vec![open(LO, 0x18000), held(0x18000, 0x19000, 0), open(0x19000, HI)]);
    assert_eq!(rust_vmap_alloc(&mut v, 0x1000, 0x8000, 0, HI), LO);
    assert_eq!(rust_vmap_alloc(&mut v, 0x2000, 1, LO, 0x12fff), 0);
    assert_eq!(rust_vmap_alloc(&mut v, 0x2000, 1, LO, 0x13000), 0x11000);
}

#[test]
fn reservations_without_room_fail() {
    let mut v = space();
    assert_eq!(rust_vmap_alloc(&mut v, 0, 1, LO, HI), 0);
    assert_eq!(rust_vmap_alloc(&mut v, HI - LO + 1, 1, LO, HI), 0);
    assert_eq!(rust_vmap_alloc(&mut v, u64::MAX, 1, LO, HI), 0);
    assert_eq!(rust_vmap_alloc(&mut v, 0x1000, 1, u64::MAX - 5, u64::MAX), 0);
    assert_eq!(rust_vmap_alloc(&mut v, HI - LO, 1, LO, HI), LO);
    assert_eq!(v.slots, vec![held(LO, HI, 0)]);
}

#[test]
fn bound_ranges_are_found() {
    let mut v = space();
    let a = rust_vmap_alloc(&mut v, 0x3000, 1, LO, HI);
    assert_eq!(rust_vmap_insert(&mut v, a, 0x2000, 77), 0);
    assert_eq!(rust_vmap_find(&v, a), 77);
    assert_eq!(rust_vmap_find(&v, a + 0x2fff), 77);
    assert_eq!(rust_vmap_find(&v, a + 0x3000), 0);
    assert_eq!(rust_vmap_span(&v, a + 5), Some((a, a + 0x3000)));
    assert_eq!(rust_vmap_span(&v, a + 0x3000), None);
    assert_eq!(rust_vmap_remove(&mut v, a + 0x1000), 0);
    assert_eq!(rust_vmap_remove(&mut v, a), 77);
    assert_eq!(rust_vmap_remove(&mut v, a), 0);
    assert_eq!(rust_vmap_find(&v, a), 0);
    assert_eq!(v.slots, vec![open(LO, HI)]);
}

#[test]
fn early_ranges_are_cut_out_of_free_slots() {
    let mut v = space();
    assert_eq!(rust_vmap_insert(&mut v, 0x20000, 0x1000, 9), 0);
    assert_eq!(v.slots, vec![open(LO, 0x20000), held(0x20000, 0x21000, 9), open(0x21000, HI)]);
    assert_eq!(rust_vmap_insert(&mut v, 0x1f000, 0x2000, 8), FAILED);
    assert_eq!(rust_vmap_insert(&mut v, HI, 0x1000, 8), FAILED);
    assert_eq!(rust_vmap_insert(&mut v, u64::MAX, 0x1000, 8), FAILED);
    assert_eq!(rust_vmap_insert(&mut v, 0xff000, 0x1000, 8), 0);
    assert_eq!(rust_vmap_find(&v, 0xfffff), 8);
}

#[test]
fn binding_at_a_free_start_takes_the_whole_slot() {
    let mut v = space();
    assert_eq!(rust_vmap_insert(&mut v, LO, HI - LO + 1, 5), FAILED);
    assert_eq!(rust_vmap_insert(&mut v, LO, 0x1000, 5), 0);
    assert_eq!(v.slots, vec![held(LO, HI, 5)]);
    assert_eq!(rust_vmap_insert(&mut v, LO, 0x1000, 7), 0);
    assert_eq!(rust_vmap_find(&v, HI - 1), 7);
    assert_eq!(rust_vmap_insert(&mut v, LO + 0x1000, 0x1000, 8), FAILED);
}

#[test]
fn reservations_are_aligned_to_pages_of_the_machine() {
    let mut v = Vmap::new(0x4000);
    rust_vmap_init(&mut v, LO + 0x1000, HI);
    assert_eq!(rust_vmap_alloc(&mut v, 0x1000, 1, LO, HI), 0x14000);
    assert_eq!(rust_vmap_alloc(&mut v, 0x1000, 0x8000, LO, HI), 0x18000);
    assert_eq!(rust_vmap_alloc(&mut v, 0x1000, 0x1000, LO, HI), 0x1c000);
    assert_eq!(v.page_size, 0x4000);
}

#[test]
fn the_lowest_address_that_fits_is_reserved() {
    let mut v = space();
    for addr in [0x12000u64, 0x14000, 0x19000] {
        assert_eq!(rust_vmap_insert(&mut v, addr, 0x1000, 1), 0);
    }
    assert_eq!(rust_vmap_alloc(&mut v, 0x3000, 1, LO, HI), 0x15000);
    assert_eq!(rust_vmap_alloc(&mut v, 0x2000, 1, LO, HI), LO);
    assert_eq!(rust_vmap_alloc(&mut v, 0x2000, 0x10000, LO, HI), 0x20000);
    assert_eq!(rust_vmap_alloc(&mut v, 0x1000, 1, LO, 0x14000), 0x13000);
    assert_eq!(rust_vmap_alloc(&mut v, 0x1000, 1, LO, 0x18000), 0);
}

#[test]
fn room_for_all_slots_is_set_aside() {
    let mut v = Vmap::new(4096);
    assert!(v.slots.capacity() >= MAX_SLOTS);
    rust_vmap_init(&mut v, LO, HI);
    assert!(v.slots.capacity() >= MAX_SLOTS);
}

#[test]
fn neighbours_merge_when_given_up() {
    let mut v = space();
    let a = rust_vmap_alloc(&mut v, 0x1000, 1, LO, HI);
    let b = rust_vmap_alloc(&mut v, 0x1000, 1, LO, HI);
    let c = rust_vmap_alloc(&mut v, 0x1000, 1, LO, HI);
    rust_vmap_remove(&mut v, a);
    rust_vmap_remove(&mut v, c);
    assert_eq!(v.slots, vec![open(a, b), held(b, c, 0), open(c, HI)]);
    rust_vmap_remove(&mut v, b);
    assert_eq!(v.slots, vec![open(LO, HI)]);
}

#[test]
fn slots_are_bounded() {
    let mut v = Vmap::new(4096);
    rust_vmap_init(&mut v, 0x1000, 1 << 40);
    for _ in 0..MAX_SLOTS - 1 {
        assert_ne!(rust_vmap_alloc(&mut v, 0x1000, 1, 0, 1 << 40), 0);
    }
    assert_eq!(v.slots.len(), MAX_SLOTS);
    let rest = v.slots[MAX_SLOTS - 1];
    assert!(!rest.busy);
    assert_eq!(rust_vmap_insert(&mut v, rest.start + 0x1000, 0x1000, 3), FAILED);
    assert_eq!(v.slots[MAX_SLOTS - 1], open(rest.start + 0x1000, rest.end));
    assert_eq!(rust_vmap_alloc(&mut v, 0x1000, 1, 0, 1 << 40), 0);
    assert_eq!(v.slots[MAX_SLOTS - 1], open(rest.start + 0x1000, rest.start + 0x2000));
    assert_eq!(rust_vmap_alloc(&mut v, 0x1000, 1, 0, 1 << 40), rest.start + 0x1000);
}

#[test]
fn buffers_are_made_resized_and_freed() {
    let flags = Flags { raw: 0xcc0, may_block: true, zero: false };
    let none = Layout { size: 0, align: 8 };
    let some = Layout { size: 100, align: 16 };
    let empty = Buffer { addr: 8, len: 0 };
    let node = NumaNode(1);
    assert_eq!(realloc(None, none, none, flags, node), ReallocStep::Done(empty));
    assert_eq!(realloc(Some(4096), none, none, flags, node), ReallocStep::Done(empty));
    assert_eq!(realloc(Some(4096), none, some, flags, node), ReallocStep::FreeThen(4096, empty));
    let fresh = ReallocStep::Resize { old: 0, size: 100, align: 16, flags: 0xcc0, nid: 1 };
    assert_eq!(realloc(None, some, none, flags, node), fresh);
    assert_eq!(realloc(Some(4096), some, none, flags, node), fresh);
    let moved = ReallocStep::Resize { old: 4096, size: 100, align: 16, flags: 0xcc0, nid: 1 };
    assert_eq!(realloc(Some(4096), some, some, flags, node), moved);
    assert_eq!(realloc_done(0, some), Err(AllocError));
    assert_eq!(realloc_done(8192, some), Ok(Buffer { addr: 8192, len: 100 }));
}

#[test]
fn vmalloc_announcement() {
    assert_eq!(announce(), "rust-vmalloc: page+vmap backend active\n");
}
