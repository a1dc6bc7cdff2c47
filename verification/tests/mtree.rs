//! The range tree and its cursor.

use kernel_mm::error::{EBUSY, EEXIST, EINVAL, ENOMEM};
use kernel_mm::mm::mtree::{
    announce_once, rust_mas_destroy, rust_mas_empty_area, rust_mas_empty_area_rev, rust_mas_erase,
    rust_mas_find, rust_mas_find_range, rust_mas_find_range_rev, rust_mas_find_rev, rust_mas_insert,
    rust_mas_next, rust_mas_next_range, rust_mas_preallocate, rust_mas_prev, rust_mas_prev_range,
    rust_mas_store, rust_mas_store_gfp, rust_mas_store_prealloc, rust_mas_walk, rust_mt_destroy,
    rust_mt_dup, rust_mt_load, snap_size, Announced, MaState, MaStatus, StoreStep, Tree,
};
use kernel_mm::mm::ranges::Ent;

fn ent(start: u64, last: u64, ptr: u64) -> Ent {
    Ent { start, last, ptr }
}

/// Three ranges with holes between them.
fn sample() -> Tree {
    Tree { ents: vec![ent(10, 19, 1), ent(30, 39, 2), ent(40, 49, 3)] }
}

fn at(index: u64, last: u64, status: MaStatus) -> MaState {
    MaState { index, last, status, offset: 0, err: 0, snap: None, prealloc: false }
}

fn start(index: u64) -> MaState {
    at(index, index, MaStatus::Start)
}

fn store(tree: &mut Tree, index: u64, last: u64, entry: u64) -> MaState {
    let mut mas = at(index, last, MaStatus::Start);
    match rust_mas_store_gfp(tree, &mut mas, entry, None) {
        StoreStep::Snap(_) => {
            let done = rust_mas_store_gfp(tree, &mut mas, entry, Some(true));
            assert_eq!(done, StoreStep::Done(0));
        }
        StoreStep::Done(_) => unreachable!(),
    }
    mas
}

#[test]
fn loads_see_stores() {
    let mut tree = Tree { ents: Vec::new() };
    store(&mut tree, 100, 199, 7);
    for i in [0u64, 99, 200, u64::MAX] {
        assert_eq!(rust_mt_load(&tree, i), 0);
    }
    for i in [100u64, 150, 199] {
        assert_eq!(rust_mt_load(&tree, i), 7);
    }
}

#[test]
fn stores_split_what_they_cover() {
    let mut tree = Tree { ents: Vec::new() };
    store(&mut tree, 0, u64::MAX, 1);
    let mas = store(&mut tree, 50, 59, 2);
    assert_eq!(mas.index, 50);
    assert_eq!(mas.last, 59);
    assert_eq!(mas.status, MaStatus::Active);
    assert_eq!(mas.offset, 1);
    assert_eq!(tree.ents, vec![ent(0, 49, 1), ent(50, 59, 2), ent(60, u64::MAX, 1)]);
    store(&mut tree, 40, 70, 3);
    assert_eq!(tree.ents, vec![ent(0, 39, 1), ent(40, 70, 3), ent(71, u64::MAX, 1)]);
    let mas = store(&mut tree, 0, u64::MAX, 0);
    assert_eq!(mas.status, MaStatus::Hole);
    assert_eq!(tree.ents.len(), 0);
}

#[test]
fn equal_neighbours_become_one_range() {
    let mut tree = Tree { ents: Vec::new() };
    store(&mut tree, 10, 19, 5);
    store(&mut tree, 30, 39, 5);
    assert_eq!(tree.ents.len(), 2);
    let mas = store(&mut tree, 20, 29, 5);
    assert_eq!(tree.ents, vec![ent(10, 39, 5)]);
    assert_eq!((mas.index, mas.last, mas.offset), (10, 39, 0));
}

#[test]
fn stores_ask_for_memory_first() {
    let mut tree = sample();
    let mut mas = at(15, 34, MaStatus::Start);
    assert_eq!(rust_mas_store_gfp(&mut tree, &mut mas, 9, None), StoreStep::Snap(4));
    assert_eq!(tree.ents, sample().ents);
    assert_eq!(rust_mas_store_gfp(&mut tree, &mut mas, 9, Some(false)), StoreStep::Done(ENOMEM));
    assert_eq!(mas.status, MaStatus::Error);
    assert_eq!(mas.err, ENOMEM);
    assert_eq!(tree.ents, sample().ents);
    let mut mas = at(15, 34, MaStatus::Start);
    assert_eq!(rust_mas_store(&mut tree, &mut mas, 9, Some(true)), StoreStep::Done(0));
    assert_eq!(tree.ents, vec![ent(10, 14, 1), ent(15, 34, 9), ent(35, 39, 2), ent(40, 49, 3)]);
}

#[test]
fn reversed_ranges_are_refused() {
    let mut tree = sample();
    let mut mas = at(5, 4, MaStatus::Start);
    assert_eq!(rust_mas_store_gfp(&mut tree, &mut mas, 9, None), StoreStep::Done(EINVAL));
    assert_eq!(mas.err, EINVAL);
    let mut mas = at(5, 4, MaStatus::Start);
    assert_eq!(rust_mas_store(&mut tree, &mut mas, 9, None), StoreStep::Done(0));
    assert_eq!(mas.err, EINVAL);
    let mut mas = at(5, 4, MaStatus::Start);
    assert_eq!(rust_mas_store_prealloc(&mut tree, &mut mas, 9, None), StoreStep::Done(()));
    assert_eq!(mas.err, EINVAL);
    assert_eq!(tree.ents, sample().ents);
}

#[test]
fn preallocated_memory_is_enough() {
    let mut tree = Tree { ents: vec![ent(0, 99, 1)] };
    let mut mas = at(40, 49, MaStatus::Start);
    assert_eq!(rust_mas_preallocate(&tree, &mut mas, None), StoreStep::Snap(3));
    assert_eq!(rust_mas_preallocate(&tree, &mut mas, Some(true)), StoreStep::Done(0));
    assert_eq!(mas.snap, Some(3));
    assert!(mas.prealloc);
    assert_eq!(rust_mas_store_prealloc(&mut tree, &mut mas, 2, None), StoreStep::Done(()));
    assert_eq!(tree.ents, vec![ent(0, 39, 1), ent(40, 49, 2), ent(50, 99, 1)]);
    assert_eq!(mas.snap, None);
    assert!(!mas.prealloc);
}

#[test]
fn preallocation_can_fail_or_go_unused() {
    let tree = sample();
    let mut mas = start(0);
    assert_eq!(rust_mas_preallocate(&tree, &mut mas, Some(false)), StoreStep::Done(ENOMEM));
    assert_eq!(mas.err, ENOMEM);
    let mut mas = start(0);
    rust_mas_preallocate(&tree, &mut mas, Some(true));
    assert!(rust_mas_destroy(&mut mas));
    assert_eq!(mas.snap, None);
    assert!(!rust_mas_destroy(&mut mas));
}

#[test]
fn walks_stop_at_entries_and_holes() {
    let tree = sample();
    let mut mas = start(35);
    assert_eq!(rust_mas_walk(&tree, &mut mas), 2);
    assert_eq!((mas.index, mas.last, mas.status, mas.offset), (30, 39, MaStatus::Active, 1));
    let mut mas = start(22);
    assert_eq!(rust_mas_walk(&tree, &mut mas), 0);
    assert_eq!((mas.index, mas.last, mas.status), (22, 29, MaStatus::Hole));
    let mut mas = start(60);
    assert_eq!(rust_mas_walk(&tree, &mut mas), 0);
    assert_eq!((mas.index, mas.last, mas.status), (60, u64::MAX, MaStatus::Hole));
    let empty = Tree { ents: Vec::new() };
    let mut mas = start(60);
    assert_eq!(rust_mas_walk(&empty, &mut mas), 0);
    assert_eq!((mas.index, mas.last), (0, u64::MAX));
}

#[test]
fn next_and_prev_visit_every_entry() {
    let tree = sample();
    let mut mas = start(10);
    let mut up = Vec::new();
    let mut e = rust_mas_find(&tree, &mut mas, u64::MAX);
    while e != 0 {
        up.push(e);
        e = rust_mas_next(&tree, &mut mas, u64::MAX);
    }
    assert_eq!(up, vec![1, 2, 3]);
    assert_eq!(mas.status, MaStatus::Overflow);
    let mut mas = start(49);
    let mut down = Vec::new();
    let mut e = rust_mas_find_rev(&tree, &mut mas, 0);
    while e != 0 {
        down.push(e);
        e = rust_mas_prev(&tree, &mut mas, 0);
    }
    assert_eq!(down, vec![3, 2, 1]);
    assert_eq!(mas.status, MaStatus::Underflow);
}

#[test]
fn range_steps_stop_at_holes() {
    let tree = sample();
    let mut mas = start(10);
    assert_eq!(rust_mas_find_range(&tree, &mut mas, 100), 1);
    assert_eq!(rust_mas_next_range(&tree, &mut mas, 100), 0);
    assert_eq!((mas.index, mas.last, mas.status), (20, 29, MaStatus::Hole));
    assert_eq!(rust_mas_next_range(&tree, &mut mas, 100), 2);
    assert_eq!(rust_mas_next_range(&tree, &mut mas, 100), 3);
    assert_eq!(rust_mas_next_range(&tree, &mut mas, 100), 0);
    assert_eq!((mas.index, mas.last, mas.status), (50, 100, MaStatus::Hole));
    let mut mas = at(30, 39, MaStatus::Active);
    assert_eq!(rust_mas_prev_range(&tree, &mut mas, 0), 0);
    assert_eq!((mas.index, mas.last, mas.status), (20, 29, MaStatus::Hole));
    let mut mas = at(40, 49, MaStatus::Active);
    assert_eq!(rust_mas_find_range_rev(&tree, &mut mas, 0), 2);
    let mut mas = at(10, 19, MaStatus::Active);
    assert_eq!(rust_mas_find_range_rev(&tree, &mut mas, 3), 0);
    assert_eq!((mas.index, mas.last, mas.status), (3, 9, MaStatus::Hole));
}

#[test]
fn find_respects_its_limit() {
    let tree = sample();
    let mut mas = start(12);
    assert_eq!(rust_mas_find(&tree, &mut mas, 11), 0);
    assert_eq!(mas, start(12));
    assert_eq!(rust_mas_find(&tree, &mut mas, 19), 1);
    assert_eq!(rust_mas_find(&tree, &mut mas, 19), 0);
    assert_eq!(rust_mas_find(&tree, &mut mas, 25), 0);
    assert_eq!(mas.status, MaStatus::Overflow);
    let mut mas = at(0, 0, MaStatus::Error);
    assert_eq!(rust_mas_find(&tree, &mut mas, 100), 0);
    let mut mas = at(20, 29, MaStatus::Hole);
    assert_eq!(rust_mas_find(&tree, &mut mas, 100), 2);
    let mut mas = at(50, 50, MaStatus::Underflow);
    assert_eq!(rust_mas_find(&tree, &mut mas, 40), 0);
    assert_eq!(mas.status, MaStatus::Overflow);
}

#[test]
fn inserts_keep_what_is_there() {
    let mut tree = sample();
    let mut mas = at(15, 25, MaStatus::Start);
    assert_eq!(rust_mas_insert(&mut tree, &mut mas, 9, Some(true)), StoreStep::Done(1));
    assert_eq!((mas.index, mas.last), (10, 19));
    assert_eq!((mas.status, mas.err), (MaStatus::Error, EEXIST));
    assert_eq!(tree.ents, sample().ents);
    let mut mas = at(20, 25, MaStatus::Start);
    assert_eq!(rust_mas_insert(&mut tree, &mut mas, 9, None), StoreStep::Snap(4));
    assert_eq!(rust_mas_insert(&mut tree, &mut mas, 9, Some(true)), StoreStep::Done(0));
    assert_eq!(rust_mt_load(&tree, 22), 9);
}

#[test]
fn erases_give_back_the_entry() {
    let mut tree = sample();
    let mut mas = start(33);
    assert_eq!(rust_mas_erase(&mut tree, &mut mas, None), StoreStep::Snap(2));
    assert_eq!(rust_mas_erase(&mut tree, &mut mas, Some(true)), StoreStep::Done(2));
    assert_eq!(rust_mt_load(&tree, 33), 0);
    assert_eq!((mas.index, mas.last, mas.status), (30, 39, MaStatus::Hole));
    let mut mas = start(33);
    assert_eq!(rust_mas_erase(&mut tree, &mut mas, None), StoreStep::Done(0));
    let mut mas = start(45);
    assert_eq!(rust_mas_erase(&mut tree, &mut mas, Some(false)), StoreStep::Done(3));
    assert_eq!(mas.err, ENOMEM);
    assert_eq!(rust_mt_load(&tree, 45), 3);
}

#[test]
fn lowest_gap_is_found() {
    let tree = sample();
    let mut mas = start(0);
    assert_eq!(rust_mas_empty_area(&tree, &mut mas, 0, 100, 10), 0);
    assert_eq!((mas.index, mas.last, mas.status), (0, 9, MaStatus::Active));
    assert_eq!(rust_mas_empty_area(&tree, &mut mas, 5, 100, 10), 0);
    assert_eq!(mas.index, 20);
    assert_eq!(rust_mas_empty_area(&tree, &mut mas, 5, 100, 11), 0);
    assert_eq!(mas.index, 50);
    assert_eq!(rust_mas_empty_area(&tree, &mut mas, 5, 49, 11), EBUSY);
    assert_eq!(mas.index, 50);
    assert_eq!(rust_mas_empty_area(&tree, &mut mas, 5, 4, 1), EINVAL);
    assert_eq!(rust_mas_empty_area(&tree, &mut mas, 5, 9, 0), EINVAL);
    assert_eq!(rust_mas_empty_area(&tree, &mut mas, 5, 9, 6), EINVAL);
}

#[test]
fn highest_gap_is_found() {
    let tree = sample();
    let mut mas = start(0);
    assert_eq!(rust_mas_empty_area_rev(&tree, &mut mas, 0, 100, 10), 0);
    assert_eq!((mas.index, mas.last, mas.status), (91, 100, MaStatus::Active));
    assert_eq!(rust_mas_empty_area_rev(&tree, &mut mas, 0, 49, 10), 0);
    assert_eq!(mas.index, 20);
    assert_eq!(rust_mas_empty_area_rev(&tree, &mut mas, 0, 25, 7), 0);
    assert_eq!(mas.index, 3);
    assert_eq!(rust_mas_empty_area_rev(&tree, &mut mas, 1, 25, 10), EBUSY);
    assert_eq!(rust_mas_empty_area_rev(&tree, &mut mas, 0, 9, 10), 0);
    assert_eq!(mas.index, 0);
    assert_eq!(rust_mas_empty_area_rev(&tree, &mut mas, 9, 8, 1), EINVAL);
    assert_eq!(rust_mas_empty_area_rev(&tree, &mut mas, 0, 8, 0), EINVAL);
}

#[test]
fn gaps_above_an_entry_at_zero() {
    let tree = Tree { ents: vec![ent(0, 99, 7)] };
    let mut mas = start(5);
    assert_eq!(rust_mas_empty_area_rev(&tree, &mut mas, 0, 49, 10), EBUSY);
    assert_eq!(mas, start(5));
    assert_eq!(rust_mas_empty_area(&tree, &mut mas, 0, 49, 10), EBUSY);
    assert_eq!(mas, start(5));
    assert_eq!(rust_mas_empty_area_rev(&tree, &mut mas, 0, 120, 30), EBUSY);
    assert_eq!(rust_mas_empty_area_rev(&tree, &mut mas, 0, 120, 21), 0);
    assert_eq!((mas.index, mas.last), (100, 120));
    let all = u64::MAX;
    assert_eq!(rust_mas_empty_area_rev(&tree, &mut mas, 0, all, all - 99), 0);
    assert_eq!((mas.index, mas.last), (100, all));
    assert_eq!(rust_mas_empty_area_rev(&tree, &mut mas, 0, all, all - 98), EBUSY);
    let tree = Tree { ents: vec![ent(0, 9, 1), ent(30, 39, 2)] };
    assert_eq!(rust_mas_empty_area_rev(&tree, &mut mas, 0, 35, 20), 0);
    assert_eq!((mas.index, mas.last), (10, 29));
    assert_eq!(rust_mas_empty_area_rev(&tree, &mut mas, 0, 35, 21), EBUSY);
    assert_eq!((mas.index, mas.last), (10, 29));
}

#[test]
fn trees_are_copied_and_emptied() {
    let tree = sample();
    let mut new = Tree { ents: Vec::new() };
    assert_eq!(rust_mt_dup(&tree, &mut new, None), StoreStep::Snap(3));
    assert_eq!(rust_mt_dup(&tree, &mut new, Some(false)), StoreStep::Done(ENOMEM));
    assert_eq!(new.ents.len(), 0);
    assert_eq!(rust_mt_dup(&tree, &mut new, Some(true)), StoreStep::Done(0));
    assert_eq!(new.ents, tree.ents);
    assert_eq!(rust_mt_dup(&tree, &mut new, Some(true)), StoreStep::Done(EINVAL));
    assert!(rust_mt_destroy(&mut new));
    assert_eq!(new.ents.len(), 0);
    assert!(!rust_mt_destroy(&mut new));
    let empty = Tree { ents: Vec::new() };
    assert_eq!(rust_mt_dup(&empty, &mut new, None), StoreStep::Done(0));
}

#[test]
fn snapshots_have_a_header_and_entries() {
    assert_eq!(snap_size(1), 48);
    assert_eq!(snap_size(100), 2424);
}

#[test]
fn tree_announces_itself_once() {
    let mut seen = Announced { count: 0 };
    let text = "rust-mmap: VMA maple tree is a Rust RCU range array\n";
    assert_eq!(announce_once(&mut seen), Some(text));
    assert_eq!(announce_once(&mut seen), None);
    assert_eq!(seen.count, 2);
}
