//! The object allocator, driven with folios of a small imagined system.

use kernel_mm::allocator::buddy::{Buddy, InitEvent, InitStep};
use kernel_mm::allocator::mi::heap::{
    self, bin_for_size, bin_size, malloc, next_power_of_two, realloc_move, usable_size, MallocEvent,
    MallocStep, Mi, ReallocStep, Request, Target,
};
use kernel_mm::allocator::mi::mem::{fill, load32, load64, store32, store64};
use kernel_mm::allocator::mi::meta::{MetaArena, META_CHUNK, META_SIZE};
use kernel_mm::allocator::mi::os::{page_size_bytes, smallest_order};
use kernel_mm::allocator::mi::page::{create_order, decode, encode, next_key, Folio, MiPage};
use kernel_mm::allocator::mi::{
    rust_mi_alloc, rust_mi_alloc_done, rust_mi_free, rust_mi_init, rust_mi_realloc,
    rust_mi_usable_size, KmallocStep, MiKmalloc, MiReallocStep, MiStep, NO_NODE, ZERO_SIZE_PTR,
};
use kernel_mm::allocator::request::{AllocError, Buffer, Flags, Layout, NumaNode};

const GFP_KERNEL: Flags = Flags { raw: 0xcc0, may_block: true, zero: false };
const GFP_KERNEL_ZERO: Flags = Flags { raw: 0xdc0, may_block: true, zero: true };
const GFP_ATOMIC: Flags = Flags { raw: 0x820, may_block: false, zero: false };
const NODE: NumaNode = NumaNode(NO_NODE);

/// A system with one CPU whose folios hold stale bytes.
struct System {
    mi: Mi,
    next: u64,
    folios: u64,
    lock_free: bool,
    returned: Vec<(u64, u32)>,
}

impl System {
    fn new() -> System {
        System {
            mi: Mi::new(12, 0x10000),
            next: 0x4000_0000,
            folios: 64,
            lock_free: true,
            returned: Vec::new(),
        }
    }

    fn folio(&mut self, order: u32) -> Option<Folio> {
        if self.folios == 0 {
            return None;
        }
        self.folios -= 1;
        let bytes = page_size_bytes(12, order);
        let area = self.next.div_ceil(bytes) * bytes;
        self.next = area + bytes;
        Some(Folio { page: area / 4096, area, mem: vec![0x77; bytes as usize] })
    }

    fn run(&mut self, req: Request) -> u64 {
        let mut event = MallocEvent::Enter;
        loop {
            event = match malloc(&mut self.mi, req, event) {
                MallocStep::Done(addr) => return addr,
                MallocStep::Lock { bin, may_fail } => {
                    let cpu = if may_fail && !self.lock_free { None } else { Some(0) };
                    MallocEvent::Locked { bin, cpu }
                }
                MallocStep::Folio { target } => {
                    let got = self.folio(target.order);
                    MallocEvent::Folio { target, got }
                }
                MallocStep::Chunk { target, folio } => {
                    let chunk = self.folio(4).map(|f| f.area);
                    MallocEvent::Chunk { target, folio, chunk }
                }
                MallocStep::Relock { bin, page, may_fail } => {
                    let cpu = if may_fail && !self.lock_free { None } else { Some(0) };
                    MallocEvent::Relocked { bin, page, cpu }
                }
                MallocStep::GiveBack { head, order } => {
                    self.returned.push((head, order));
                    return 0;
                }
            };
        }
    }

    fn resize(&mut self, ptr: u64, size: u64, align: u64, flags: Flags, nid: i32) -> u64 {
        match heap::realloc(&self.mi, ptr, size, align, flags, nid) {
            ReallocStep::Done(p) => p,
            ReallocStep::Free => {
                heap::free(&mut self.mi, ptr, true);
                0
            }
            ReallocStep::Malloc(req) => self.run(req),
            ReallocStep::Move(req) => {
                let new = self.run(req);
                realloc_move(&mut self.mi, ptr, new, size, true)
            }
        }
    }

    fn kmalloc(
        &mut self,
        step: KmallocStep,
        ptr: Option<u64>,
        layout: Layout,
        old: Layout,
        flags: Flags,
        nid: NumaNode,
    ) -> Result<Buffer, AllocError> {
        let raw = match step {
            KmallocStep::Done(b) => return Ok(b),
            KmallocStep::FreeThen(p, b) => {
                heap::free(&mut self.mi, p, true);
                return Ok(b);
            }
            KmallocStep::Malloc(req) => self.run(req),
            KmallocStep::Realloc { ptr, size, align } => {
                self.resize(ptr, size, align, flags, nid.0)
            }
        };
        MiKmalloc::<8>::realloc_done(&mut self.mi, raw, ptr, layout, old, flags)
    }

    fn allocate(&mut self, layout: Layout, flags: Flags) -> Result<Buffer, AllocError> {
        let step = MiKmalloc::<8>::allocate(layout, flags, NODE);
        self.kmalloc(step, None, layout, Layout { size: 0, align: 1 }, flags, NODE)
    }

    fn reallocate(
        &mut self,
        ptr: u64,
        layout: Layout,
        old: Layout,
        flags: Flags,
    ) -> Result<Buffer, AllocError> {
        let step = MiKmalloc::<8>::realloc(Some(ptr), layout, old, flags, NODE);
        self.kmalloc(step, Some(ptr), layout, old, flags, NODE)
    }

    fn release(&mut self, ptr: u64, layout: Layout) {
        if let KmallocStep::FreeThen(p, _) = MiKmalloc::<8>::free(ptr, layout) {
            heap::free(&mut self.mi, p, true);
        }
    }

    fn write(&mut self, ptr: u64, from: u64, to: u64, val: u8) {
        heap::write_bytes(&mut self.mi, ptr, from, to, val);
    }

    fn read(&self, ptr: u64, at: u64) -> u8 {
        heap::load(&self.mi, ptr, at)
    }
}

fn layout(size: u64, align: u64) -> Layout {
    Layout { size, align }
}

#[test]
fn malloc_write_free() {
    let mut sys = System::new();
    let l = layout(64, 8);
    let p = sys.allocate(l, GFP_KERNEL).unwrap();
    assert_eq!(p.len, 64);
    sys.write(p.addr, 0, 64, 0xAB);
    assert_eq!(sys.read(p.addr, 0), 0xAB);
    sys.release(p.addr, l);
}

#[test]
fn realloc_preserves() {
    let mut sys = System::new();
    let old = layout(32, 8);
    let new = layout(128, 8);
    let p = sys.allocate(old, GFP_KERNEL).unwrap();
    sys.write(p.addr, 0, 32, 0xCD);
    let q = sys.reallocate(p.addr, new, old, GFP_KERNEL).unwrap();
    assert_eq!(sys.read(q.addr, 0), 0xCD);
    sys.release(q.addr, new);
}

#[test]
fn zeroed() {
    let mut sys = System::new();
    let l = layout(48, 8);
    let p = sys.allocate(l, GFP_KERNEL_ZERO).unwrap();
    for i in 0..48 {
        assert_eq!(sys.read(p.addr, i), 0);
    }
    sys.release(p.addr, l);
}

#[test]
fn alignment() {
    let mut sys = System::new();
    let p = sys.allocate(layout(64, 1), GFP_KERNEL).unwrap();
    assert_eq!(p.addr & 7, 0);
}

#[test]
fn double_free_detected() {
    let mut sys = System::new();
    let l = layout(32, 8);
    let p = sys.allocate(l, GFP_KERNEL).unwrap();
    sys.release(p.addr, l);
    assert!(!heap::free(&mut sys.mi, p.addr, true));
}

#[test]
fn gfp_atomic() {
    let mut sys = System::new();
    let l = layout(16, 8);
    let p = sys.allocate(l, GFP_ATOMIC).unwrap();
    sys.release(p.addr, l);
}

#[test]
fn numa_default() {
    let mut sys = System::new();
    let l = layout(24, 8);
    let p = sys.allocate(l, GFP_KERNEL).unwrap();
    sys.release(p.addr, l);
}

#[test]
fn size_classes() {
    assert_eq!(bin_for_size(12, 1, 1), Some(0));
    assert_eq!(bin_for_size(12, 8, 8), Some(0));
    assert_eq!(bin_for_size(12, 9, 1), Some(1));
    assert_eq!(bin_for_size(12, 24, 8), Some(2));
    assert_eq!(bin_for_size(12, 24, 16), Some(3));
    assert_eq!(bin_for_size(12, 33, 32), Some(5));
    assert_eq!(bin_for_size(12, 100, 64), Some(7));
    assert_eq!(bin_for_size(12, 8192, 1), Some(14));
    assert_eq!(bin_for_size(12, 8193, 1), None);
    assert_eq!(bin_for_size(12, 1, 8192), Some(14));
    assert_eq!(bin_for_size(12, 1, 16384), None);
    assert_eq!(bin_size(6), 96);
    assert_eq!(bin_size(14), 8192);
    assert_eq!(bin_size(15), 0);
}

#[test]
fn powers_of_two() {
    assert_eq!(next_power_of_two(1), 1);
    assert_eq!(next_power_of_two(3), 4);
    assert_eq!(next_power_of_two(64), 64);
    assert_eq!(next_power_of_two(65), 128);
}

#[test]
fn folio_sizes() {
    assert_eq!(page_size_bytes(12, 0), 4096);
    assert_eq!(page_size_bytes(12, 10), 4194304);
    assert_eq!(smallest_order(12, 1), Some(0));
    assert_eq!(smallest_order(12, 4097), Some(1));
    assert_eq!(smallest_order(12, 4194304), Some(10));
    assert_eq!(smallest_order(12, 4194305), None);
    assert_eq!(create_order(12, 0), None);
    assert_eq!(create_order(12, 8), Some(0));
    assert_eq!(create_order(12, 2048), Some(0));
    assert_eq!(create_order(12, 4096), Some(1));
    assert_eq!(create_order(12, 8192), Some(2));
    assert_eq!(create_order(12, 16384), Some(3));
    assert_eq!(create_order(12, 32768), Some(3));
    assert_eq!(create_order(12, 4194304), Some(10));
    assert_eq!(create_order(12, 4194305), None);
    assert_eq!(page_size_bytes(16, 0), 65536);
    assert_eq!(page_size_bytes(21, 10), 0x8000_0000);
    assert_eq!(smallest_order(16, 65537), Some(1));
    assert_eq!(create_order(16, 8192), Some(0));
    assert_eq!(create_order(14, 16384), Some(1));
    assert_eq!(bin_for_size(16, 8193, 1), None);
    assert_eq!(bin_for_size(16, 8192, 1), Some(14));
}

#[test]
fn objects_have_the_least_alignment() {
    let align = |step| match step {
        KmallocStep::Malloc(req) => req.align,
        KmallocStep::Realloc { align, .. } => align,
        _ => 0,
    };
    let small = layout(16, 4);
    assert_eq!(align(MiKmalloc::<8>::allocate(small, GFP_KERNEL, NODE)), 8);
    assert_eq!(align(MiKmalloc::<128>::allocate(small, GFP_KERNEL, NODE)), 128);
    assert_eq!(align(MiKmalloc::<8>::allocate(layout(16, 64), GFP_KERNEL, NODE)), 64);
    assert_eq!(align(MiKmalloc::<128>::realloc(Some(64), small, small, GFP_KERNEL, NODE)), 128);
}

#[test]
fn pages_of_another_size() {
    let mut mi = Mi::new(16, 0x10000);
    let req = |size| Request { size, align: 1, flags: GFP_KERNEL, nid: NO_NODE, cache: 0 };
    let target = Target { bin: None, block_size: 131072, order: 2 };
    match malloc(&mut mi, req(100_000), MallocEvent::Enter) {
        MallocStep::Folio { target: t } => assert_eq!(t, target),
        _ => panic!("a folio was expected"),
    }
    let target = Target { bin: Some(14), block_size: 8192, order: 0 };
    match malloc(&mut mi, req(8000), MallocEvent::Locked { bin: 14, cpu: Some(0) }) {
        MallocStep::Folio { target: t } => assert_eq!(t, target),
        _ => panic!("a folio was expected"),
    }
    let folio = Folio { page: 1, area: 0x8_0000, mem: vec![0; 65536] };
    let event = MallocEvent::Folio { target, got: Some(folio) };
    let page = match malloc(&mut mi, req(8000), event) {
        MallocStep::Relock { page, .. } => page,
        _ => panic!("the lock was expected"),
    };
    assert!(page.contains(0x8_ffff));
    assert!(!page.contains(0x9_0000));
    let event = MallocEvent::Relocked { bin: 14, page, cpu: Some(0) };
    assert!(matches!(malloc(&mut mi, req(8000), event), MallocStep::Done(0x8_0000)));
}

#[test]
fn links_are_encoded_and_decoded() {
    assert_eq!(encode(0x0200_0000_0000_0003, 1), 0x180);
    assert_eq!(decode(0x180, 1), 0x0200_0000_0000_0003);
    for (addr, key) in [(0u64, 0x9E39u64), (0x8400, 0x1235), (u64::MAX, 7), (1 << 63, u64::MAX)] {
        assert_eq!(decode(encode(addr, key), key), addr);
        assert_eq!(encode(decode(addr, key), key), addr);
    }
}

#[test]
fn keys_are_odd_and_run_on() {
    let mut seq: u64 = 1;
    assert_eq!(next_key(&mut seq, 1), 0x9E37_79B9_7F4A_7C17);
    assert_eq!(seq, 0x9E38);
    assert_eq!(next_key(&mut seq, 0), 0x9E39);
    assert_eq!(seq, 0x13C6F);
}

#[test]
fn objects_without_size() {
    let mut sys = System::new();
    let p = sys.allocate(layout(0, 32), GFP_KERNEL).unwrap();
    assert_eq!(p, Buffer { addr: 32, len: 0 });
    assert_eq!(sys.folios, 64);
    assert_eq!(MiKmalloc::<8>::free(32, layout(0, 32)), KmallocStep::Done(Buffer { addr: 1, len: 0 }));
    let q = sys.reallocate(32, layout(16, 8), layout(0, 32), GFP_KERNEL).unwrap();
    assert_eq!(q.len, 16);
    let r = sys.reallocate(q.addr, layout(0, 4), layout(16, 8), GFP_KERNEL).unwrap();
    assert_eq!(r, Buffer { addr: 4, len: 0 });
    assert!(!heap::free(&mut sys.mi, q.addr, true));
}

#[test]
fn blocks_are_reused_last_in_first_out() {
    let mut sys = System::new();
    let l = layout(64, 8);
    let a = sys.allocate(l, GFP_KERNEL).unwrap().addr;
    let b = sys.allocate(l, GFP_KERNEL).unwrap().addr;
    assert_eq!(b, a + 64);
    sys.release(a, l);
    sys.release(b, l);
    assert_eq!(sys.allocate(l, GFP_KERNEL).unwrap().addr, b);
    assert_eq!(sys.allocate(l, GFP_KERNEL).unwrap().addr, a);
}

#[test]
fn remote_frees_are_collected() {
    let mut sys = System::new();
    let l = layout(2048, 8);
    let a = sys.allocate(l, GFP_KERNEL).unwrap().addr;
    let b = sys.allocate(l, GFP_KERNEL).unwrap().addr;
    assert_eq!(sys.folios, 63);
    assert!(heap::free(&mut sys.mi, a, false));
    assert!(!heap::free(&mut sys.mi, a, false));
    assert!(!heap::free(&mut sys.mi, a, true));
    assert_eq!(sys.allocate(l, GFP_KERNEL).unwrap().addr, a);
    assert_eq!(sys.folios, 63);
    assert_ne!(a, b);
}

#[test]
fn a_full_page_is_followed_by_another() {
    let mut sys = System::new();
    let l = layout(2048, 8);
    let mut seen: Vec<u64> = Vec::new();
    for _ in 0..6 {
        let p = sys.allocate(l, GFP_KERNEL).unwrap().addr;
        for &q in &seen {
            assert!(p + 2048 <= q || q + 2048 <= p);
        }
        seen.push(p);
    }
    assert_eq!(sys.folios, 61);
}

#[test]
fn objects_keep_their_bytes() {
    let mut sys = System::new();
    let l = layout(96, 8);
    let mut all = Vec::new();
    for i in 0..20u8 {
        let p = sys.allocate(l, GFP_KERNEL).unwrap().addr;
        sys.write(p, 0, 96, i);
        all.push(p);
    }
    for i in (0..20).step_by(2) {
        sys.release(all[i], l);
    }
    for i in (1..20).step_by(2) {
        for at in 0..96 {
            assert_eq!(sys.read(all[i], at), i as u8);
        }
    }
}

#[test]
fn large_objects_have_pages_of_their_own() {
    let mut sys = System::new();
    let p = sys.allocate(layout(10000, 8), GFP_KERNEL).unwrap();
    assert_eq!(p.len, 10000);
    assert_eq!(usable_size(&sys.mi, p.addr), 16384);
    assert_eq!(sys.next, p.addr + 32768);
    assert!(heap::free(&mut sys.mi, p.addr, true));
    assert_eq!(sys.allocate(layout(4194304, 8), GFP_KERNEL).map(|b| b.len), Ok(4194304));
    assert_eq!(sys.allocate(layout(4194305, 8), GFP_KERNEL), Err(AllocError));
}

#[test]
fn large_alignment_is_met() {
    let mut sys = System::new();
    for align in [16u64, 64, 256, 4096, 8192, 65536] {
        let p = sys.allocate(layout(40, align), GFP_KERNEL).unwrap();
        assert_eq!(p.addr % align, 0);
    }
    let p = sys.allocate(layout(40, 48), GFP_KERNEL).unwrap();
    assert_eq!(p.addr % 64, 0);
}

#[test]
fn no_memory_is_an_error() {
    let mut sys = System::new();
    sys.folios = 0;
    assert_eq!(sys.allocate(layout(64, 8), GFP_KERNEL), Err(AllocError));
    assert_eq!(sys.allocate(layout(20000, 8), GFP_KERNEL), Err(AllocError));
}

#[test]
fn contended_lock_fails_atomic_requests() {
    let mut sys = System::new();
    sys.lock_free = false;
    assert_eq!(sys.allocate(layout(64, 8), GFP_ATOMIC), Err(AllocError));
    assert_eq!(sys.folios, 64);
    assert!(sys.allocate(layout(64, 8), GFP_KERNEL).is_ok());
}

#[test]
fn lost_lock_returns_the_new_folio() {
    let mut sys = System::new();
    let req = Request { size: 64, align: 8, flags: GFP_ATOMIC, nid: NO_NODE, cache: 0 };
    let bin = match malloc(&mut sys.mi, req, MallocEvent::Enter) {
        MallocStep::Lock { bin, may_fail } => {
            assert!(may_fail);
            bin
        }
        _ => unreachable!(),
    };
    assert_eq!(bin, 5);
    let target = match malloc(&mut sys.mi, req, MallocEvent::Locked { bin, cpu: Some(3) }) {
        MallocStep::Folio { target } => target,
        _ => unreachable!(),
    };
    assert_eq!(target, Target { bin: Some(5), block_size: 64, order: 0 });
    let got = sys.folio(0);
    let page = match malloc(&mut sys.mi, req, MallocEvent::Folio { target, got }) {
        MallocStep::Relock { page, .. } => page,
        _ => unreachable!(),
    };
    match malloc(&mut sys.mi, req, MallocEvent::Relocked { bin, page, cpu: None }) {
        MallocStep::GiveBack { head, order } => {
            assert_eq!(head, 0x40000);
            assert_eq!(order, 0);
        }
        _ => unreachable!(),
    }
    assert_ne!(sys.run(req), 0);
}

#[test]
fn descriptors_run_out_and_are_refilled() {
    let mut sys = System::new();
    sys.folios = 820;
    for _ in 0..819 {
        assert!(sys.allocate(layout(8193, 8), GFP_KERNEL).is_ok());
    }
    assert_eq!(sys.folios, 1);
    assert_eq!(sys.allocate(layout(8193, 8), GFP_KERNEL), Err(AllocError));
    assert_eq!(sys.returned.len(), 1);
    assert_eq!(sys.returned[0].1, 3);
    sys.folios = 2;
    assert!(sys.allocate(layout(8193, 8), GFP_KERNEL).is_ok());
    assert_eq!(sys.folios, 0);
}

#[test]
fn descriptor_arena() {
    let mut arena = MetaArena::new(65536);
    assert_eq!(arena.meta_take(), Some(65536));
    assert_eq!(arena.meta_take(), Some(65536 + META_SIZE));
    arena.meta_free(65536);
    assert_eq!(arena.meta_take(), Some(65536));
    for _ in 2..META_CHUNK / META_SIZE {
        assert!(arena.meta_take().is_some());
    }
    assert_eq!(arena.meta_take(), None);
    assert_eq!(arena.meta_refill(1 << 20, META_CHUNK), 1 << 20);
    assert_eq!(arena.meta_take(), Some((1 << 20) + 80));
}

#[test]
fn heaps_of_cpus_are_apart() {
    let mut sys = System::new();
    let req = Request { size: 64, align: 8, flags: GFP_KERNEL, nid: NO_NODE, cache: 0 };
    let a = sys.run(req);
    let event = MallocEvent::Locked { bin: 5, cpu: Some(1) };
    assert!(matches!(malloc(&mut sys.mi, req, event), MallocStep::Folio { .. }));
    let event = MallocEvent::Locked { bin: 5, cpu: Some(64) };
    match malloc(&mut sys.mi, req, event) {
        MallocStep::Done(b) => assert_eq!(b, a + 64),
        _ => unreachable!(),
    }
}

#[test]
fn growing_in_place_and_moving() {
    let mut sys = System::new();
    let p = sys.allocate(layout(40, 8), GFP_KERNEL).unwrap().addr;
    assert_eq!(usable_size(&sys.mi, p), 48);
    sys.write(p, 0, 40, 0x11);
    let q = sys.reallocate(p, layout(48, 8), layout(40, 8), GFP_KERNEL_ZERO).unwrap();
    assert_eq!(q.addr, p);
    assert_eq!(sys.read(p, 39), 0x11);
    assert_eq!(sys.read(p, 40), 0);
    assert_eq!(sys.read(p, 47), 0);
    let r = sys.reallocate(p, layout(100, 8), layout(48, 8), GFP_KERNEL_ZERO).unwrap();
    assert_ne!(r.addr, p);
    for i in 0..40 {
        assert_eq!(sys.read(r.addr, i), 0x11);
    }
    for i in 40..100 {
        assert_eq!(sys.read(r.addr, i), 0);
    }
    assert!(!heap::free(&mut sys.mi, p, true));
    let s = sys.reallocate(r.addr, layout(10, 8), layout(100, 8), GFP_KERNEL).unwrap();
    assert_eq!(s, Buffer { addr: r.addr, len: 10 });
}

#[test]
fn failed_move_keeps_the_object() {
    let mut sys = System::new();
    let p = sys.allocate(layout(32, 8), GFP_KERNEL).unwrap().addr;
    sys.write(p, 0, 32, 0x22);
    sys.folios = 0;
    assert_eq!(sys.reallocate(p, layout(999, 8), layout(32, 8), GFP_KERNEL), Err(AllocError));
    assert_eq!(sys.read(p, 31), 0x22);
    assert!(heap::free(&mut sys.mi, p, true));
}

#[test]
fn heap_realloc_cases() {
    let mut sys = System::new();
    let req = Request { size: 9, align: 8, flags: GFP_KERNEL, nid: 2, cache: 0 };
    assert_eq!(heap::realloc(&sys.mi, 0, 9, 8, GFP_KERNEL, 2), ReallocStep::Malloc(req));
    let p = sys.run(req);
    assert_eq!(heap::realloc(&sys.mi, p, 0, 8, GFP_KERNEL, 2), ReallocStep::Free);
    assert_eq!(heap::realloc(&sys.mi, p, 16, 8, GFP_KERNEL, 2), ReallocStep::Done(p));
    let bigger = Request { size: 17, ..req };
    assert_eq!(heap::realloc(&sys.mi, p, 17, 8, GFP_KERNEL, 2), ReallocStep::Move(bigger));
}

#[test]
fn double_free_of_small_blocks() {
    let mut sys = System::new();
    let l = layout(8, 8);
    let a = sys.allocate(l, GFP_KERNEL).unwrap().addr;
    let b = sys.allocate(l, GFP_KERNEL).unwrap().addr;
    assert_eq!(usable_size(&sys.mi, a), 8);
    assert!(heap::free(&mut sys.mi, a, true));
    assert!(!heap::free(&mut sys.mi, a, true));
    assert!(heap::free(&mut sys.mi, b, false));
    assert!(!heap::free(&mut sys.mi, b, true));
    assert!(!heap::free(&mut sys.mi, a, false));
    assert_eq!(sys.allocate(l, GFP_KERNEL).unwrap().addr, b);
    assert_eq!(sys.allocate(l, GFP_KERNEL).unwrap().addr, a);
}

#[test]
fn addresses_inside_blocks_are_refused() {
    let mut sys = System::new();
    let l = layout(96, 8);
    let a = sys.allocate(l, GFP_KERNEL).unwrap().addr;
    assert!(!heap::free(&mut sys.mi, a + 8, true));
    assert!(!heap::free(&mut sys.mi, a + 95, false));
    assert!(!heap::free(&mut sys.mi, a + 4095, true));
    assert!(heap::free(&mut sys.mi, a, true));
}

#[test]
fn a_stray_mark_hides_a_live_block() {
    let mut sys = System::new();
    let p = sys.allocate(layout(32, 8), GFP_KERNEL).unwrap().addr;
    sys.write(p, 8, 9, 0xEE);
    sys.write(p, 9, 10, 0xFE);
    sys.write(p, 10, 11, 0xEE);
    sys.write(p, 11, 12, 0xFE);
    assert!(!heap::free(&mut sys.mi, p, true));
    sys.write(p, 8, 12, 0);
    assert!(heap::free(&mut sys.mi, p, true));
}

#[test]
fn addresses_of_nobody() {
    let mut sys = System::new();
    assert!(heap::free(&mut sys.mi, 0, true));
    assert!(!heap::free(&mut sys.mi, 0xdead_0000, true));
    assert_eq!(usable_size(&sys.mi, 0), 0);
    assert_eq!(usable_size(&sys.mi, 0xdead_0000), 0);
}

#[test]
fn kmalloc_entry_points() {
    let mut sys = System::new();
    assert_eq!(rust_mi_alloc(0, 8, GFP_KERNEL, NO_NODE, 0), MiStep::Done(ZERO_SIZE_PTR));
    let req = match rust_mi_alloc(30, 0, GFP_KERNEL_ZERO, 1, 7) {
        MiStep::Malloc(req) => req,
        MiStep::Done(_) => unreachable!(),
    };
    assert_eq!(req, Request { size: 30, align: 1, flags: GFP_KERNEL_ZERO, nid: 1, cache: 7 });
    let p = sys.run(req);
    assert_eq!(rust_mi_alloc_done(&mut sys.mi, p, 30, GFP_KERNEL_ZERO), p);
    for i in 0..30 {
        assert_eq!(sys.read(p, i), 0);
    }
    assert_eq!(rust_mi_alloc_done(&mut sys.mi, 0, 30, GFP_KERNEL_ZERO), 0);
    assert_eq!(rust_mi_usable_size(&sys.mi, p), 32);
    assert_eq!(rust_mi_usable_size(&sys.mi, ZERO_SIZE_PTR), 0);
    let step = rust_mi_realloc(&sys.mi, p, 32, 0, GFP_KERNEL, 1);
    assert_eq!(step, MiReallocStep::Heap(ReallocStep::Done(p)));
    let step = rust_mi_realloc(&sys.mi, p, 33, 0, GFP_KERNEL, 1);
    let moved = Request { size: 33, align: 1, flags: GFP_KERNEL, nid: 1, cache: 0 };
    assert_eq!(step, MiReallocStep::Heap(ReallocStep::Move(moved)));
    let step = rust_mi_realloc(&sys.mi, ZERO_SIZE_PTR, 33, 0, GFP_KERNEL, 1);
    assert_eq!(step, MiReallocStep::Malloc(moved));
    let step = rust_mi_realloc(&sys.mi, p, 0, 0, GFP_KERNEL, 1);
    assert_eq!(step, MiReallocStep::FreeThen(ZERO_SIZE_PTR));
    assert!(rust_mi_free(&mut sys.mi, ZERO_SIZE_PTR, true));
    assert!(rust_mi_free(&mut sys.mi, 0, true));
    assert!(rust_mi_free(&mut sys.mi, p, true));
    assert!(!rust_mi_free(&mut sys.mi, p, true));
}

#[test]
fn init_fills_the_pool() {
    let mut pool = Buddy::new();
    let step = rust_mi_init(&mut pool, InitEvent::Enter(GFP_KERNEL));
    assert_eq!(step, InitStep::Steal);
    let step = rust_mi_init(&mut pool, InitEvent::Stolen(None));
    assert_eq!(step, InitStep::Ready { spans: 0 });
}

#[test]
fn pages_link_their_blocks() {
    let folio = Folio { page: 5, area: 0x8000, mem: vec![0xEE; 4096] };
    let mut page = MiPage::create(12, 1024, 0, folio, 0x900, 0x1235, 0);
    assert_eq!(page.folio(), (5, 0));
    assert_eq!(page.meta(), 0x900);
    assert_eq!(page.block_size(), 1024);
    assert!(page.contains(0x8000));
    assert!(page.contains(0x8fff));
    assert!(!page.contains(0x9000));
    assert!(page.is_unused());
    assert!(page.is_double_free(0x8400));
    assert_eq!(page.pop(), 0x8000);
    assert_eq!(page.pop(), 0x8400);
    assert!(!page.is_double_free(0x8400));
    assert!(!page.is_unused());
    assert!(page.push_thread(0x8000));
    assert!(page.push_local(0x8400));
    assert!(!page.push_local(0x8400));
    page.collect();
    assert!(page.is_unused());
    assert_eq!(page.pop(), 0x8000);
    assert_eq!(page.pop(), 0x8400);
    assert_eq!(page.pop(), 0x8800);
    assert_eq!(page.pop(), 0x8c00);
    assert!(!page.has_local());
    assert_eq!(page.pop(), 0);
    page.put(0x8c00, 3, 9);
    assert_eq!(page.get(0x8c00, 3), 9);
    page.fill(0x8c00, 1000, 4, 24);
    assert_eq!(page.get(0x8c00, 1023), 4);
}

#[test]
fn little_endian_words() {
    let mut mem = vec![0u8; 16];
    store32(&mut mem, 0, 0x0403_0201);
    store64(&mut mem, 8, 0x0807_0605_0403_0201);
    assert_eq!(mem[..4], [1, 2, 3, 4]);
    assert_eq!(mem[8..], [1, 2, 3, 4, 5, 6, 7, 8]);
    assert_eq!(load32(&mem, 2), 0x0403);
    assert_eq!(load64(&mem, 8), 0x0807_0605_0403_0201);
    fill(&mut mem, 1, 0xFF, 2);
    assert_eq!(load32(&mem, 0), 0x04FF_FF01);
}
