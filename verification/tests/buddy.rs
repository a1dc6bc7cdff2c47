//! The page pool, driven with folios of a small imagined system.

use kernel_mm::allocator::blocks::{TAG_FREE, TAG_NONE};
use kernel_mm::allocator::buddy::{
    allocate, free, init, maybe_init, owns, pool_kib, rust_buddy_alloc_page, rust_buddy_free_page,
    AllocStep, Block, Buddy, FreeEvent, FreeStep, InitEvent, InitStep, PageFree, MAX_ORDER, NR_SPANS,
};
use kernel_mm::allocator::request::Flags;
use kernel_mm::allocator::span::Span;

const GFP_KERNEL: Flags = Flags { raw: 0xcc0, may_block: true, zero: false };
const GFP_ATOMIC: Flags = Flags { raw: 0x820, may_block: false, zero: false };

/// A system with page frames from `next` on; `left` folios of the largest order
/// remain in it.
struct System {
    next: u64,
    left: u64,
    memory: Vec<(u64, u8)>,
    given_back: Vec<u64>,
}

impl System {
    fn new(left: u64) -> System {
        System { next: 1024, left, memory: Vec::new(), given_back: Vec::new() }
    }

    fn steal(&mut self) -> Option<u64> {
        if self.left == 0 {
            return None;
        }
        self.left -= 1;
        let pfn = self.next;
        self.next += 512;
        Some(pfn)
    }

    /// Writes the first byte of a page.
    fn write(&mut self, pfn: u64, val: u8) {
        self.memory.push((pfn, val));
    }

    /// Reads the first byte of a page.
    fn read(&self, pfn: u64) -> u8 {
        let mut val = 0;
        for &(p, v) in &self.memory {
            if p == pfn {
                val = v;
            }
        }
        val
    }
}

fn fill(sys: &mut System, pool: &mut Buddy, flags: Flags) -> InitStep {
    let mut event = InitEvent::Enter(flags);
    loop {
        match init(pool, event) {
            InitStep::Steal => event = InitEvent::Stolen(sys.steal()),
            InitStep::GiveBack(pfn) => {
                sys.given_back.push(pfn);
                event = InitEvent::GivenBack;
            }
            end => return end,
        }
    }
}

fn take(sys: &mut System, pool: &mut Buddy, order: u32, flags: Flags) -> Option<Block> {
    let mut event = InitEvent::Enter(flags);
    loop {
        match allocate(pool, order, event) {
            AllocStep::Init(InitStep::Steal) => event = InitEvent::Stolen(sys.steal()),
            AllocStep::Init(InitStep::GiveBack(pfn)) => {
                sys.given_back.push(pfn);
                event = InitEvent::GivenBack;
            }
            AllocStep::Init(InitStep::Ready { .. }) => event = InitEvent::Enter(flags),
            AllocStep::Init(InitStep::Done) => unreachable!(),
            AllocStep::Page(block) => return block,
        }
    }
}

fn release(pool: &mut Buddy, pfn: u64, order: u32) {
    if free(pool, Some(pfn), order, FreeEvent::Enter) == FreeStep::Dissolve(pfn) {
        assert!(order > 0);
        assert_eq!(free(pool, Some(pfn), order, FreeEvent::Dissolved), FreeStep::Done);
    }
}

#[test]
fn order0_write_free() {
    let mut sys = System::new(16);
    let mut pool = Buddy::new();
    fill(&mut sys, &mut pool, GFP_KERNEL);
    let page = take(&mut sys, &mut pool, 0, GFP_KERNEL).unwrap();
    sys.write(page.pfn, 0x5A);
    assert_eq!(sys.read(page.pfn), 0x5A);
    release(&mut pool, page.pfn, 0);
}

#[test]
fn order2_compound() {
    let mut sys = System::new(16);
    let mut pool = Buddy::new();
    fill(&mut sys, &mut pool, GFP_KERNEL);
    let page = take(&mut sys, &mut pool, 2, GFP_KERNEL).unwrap();
    assert!(page.compound);
    assert_eq!(page.order, 2);
    release(&mut pool, page.pfn, 2);
}

#[test]
fn split_and_coalesce() {
    let mut sys = System::new(16);
    let mut pool = Buddy::new();
    fill(&mut sys, &mut pool, GFP_KERNEL);
    let hi = take(&mut sys, &mut pool, 1, GFP_KERNEL).unwrap();
    release(&mut pool, hi.pfn, 1);

    let a = take(&mut sys, &mut pool, 0, GFP_KERNEL).unwrap();
    let b = take(&mut sys, &mut pool, 0, GFP_KERNEL).unwrap();
    assert_ne!(a.pfn, b.pfn);
    release(&mut pool, a.pfn, 0);
    release(&mut pool, b.pfn, 0);
    let again = take(&mut sys, &mut pool, 1, GFP_KERNEL).unwrap();
    assert_eq!(again.pfn, hi.pfn);
    release(&mut pool, again.pfn, 1);
}

#[test]
fn owns_roundtrip() {
    let mut sys = System::new(16);
    let mut pool = Buddy::new();
    fill(&mut sys, &mut pool, GFP_KERNEL);
    let page = take(&mut sys, &mut pool, 0, GFP_KERNEL).unwrap();
    assert!(owns(&pool, Some(page.pfn)));
    release(&mut pool, page.pfn, 0);
}

#[test]
fn pool_takes_at_most_its_number_of_spans() {
    let mut sys = System::new(100);
    let mut pool = Buddy::new();
    assert_eq!(
        fill(&mut sys, &mut pool, GFP_KERNEL),
        InitStep::Ready { spans: NR_SPANS as u64 }
    );
    assert_eq!(sys.left, 84);
    assert_eq!(fill(&mut sys, &mut pool, GFP_KERNEL), InitStep::Done);
    assert_eq!(sys.left, 84);
}

#[test]
fn pool_settles_for_fewer_spans() {
    let mut sys = System::new(3);
    let mut pool = Buddy::new();
    assert_eq!(fill(&mut sys, &mut pool, GFP_KERNEL), InitStep::Ready { spans: 3 });
    assert!(owns(&pool, Some(1024)));
    assert!(owns(&pool, Some(1024 + 3 * 512 - 1)));
    assert!(!owns(&pool, Some(1024 + 3 * 512)));
    assert!(!owns(&pool, Some(1023)));
    assert!(!owns(&pool, None));
}

#[test]
fn pool_sizes_in_kib() {
    assert_eq!(pool_kib(0, 4096), 0);
    assert_eq!(pool_kib(3, 4096), 6144);
    assert_eq!(pool_kib(NR_SPANS as u64, 4096), 32768);
    assert_eq!(pool_kib(NR_SPANS as u64, 65536), 524288);
}

#[test]
fn empty_system_gives_an_empty_pool() {
    let mut sys = System::new(0);
    let mut pool = Buddy::new();
    assert_eq!(fill(&mut sys, &mut pool, GFP_KERNEL), InitStep::Ready { spans: 0 });
    assert_eq!(take(&mut sys, &mut pool, 0, GFP_KERNEL), None);
}

#[test]
fn atomic_requests_do_not_fill_the_pool() {
    let mut sys = System::new(16);
    let mut pool = Buddy::new();
    assert_eq!(maybe_init(&mut pool, InitEvent::Enter(GFP_ATOMIC)), InitStep::Done);
    assert_eq!(take(&mut sys, &mut pool, 0, GFP_ATOMIC), None);
    assert_eq!(sys.left, 16);
    assert!(take(&mut sys, &mut pool, 0, GFP_KERNEL).is_some());
    assert!(take(&mut sys, &mut pool, 0, GFP_ATOMIC).is_some());
}

#[test]
fn surplus_folio_goes_back() {
    let mut pool = Buddy::new();
    let mut sys = System::new(16);
    fill(&mut sys, &mut pool, GFP_KERNEL);
    assert_eq!(init(&mut pool, InitEvent::Stolen(Some(1 << 20))), InitStep::GiveBack(1 << 20));
    assert!(!owns(&pool, Some(1 << 20)));
}

#[test]
fn orders_above_the_largest_are_refused() {
    let mut sys = System::new(1);
    let mut pool = Buddy::new();
    assert_eq!(take(&mut sys, &mut pool, MAX_ORDER + 1, GFP_KERNEL), None);
    let whole = take(&mut sys, &mut pool, MAX_ORDER, GFP_KERNEL).unwrap();
    assert_eq!(whole, Block { pfn: 1024, order: 9, compound: true });
    assert_eq!(take(&mut sys, &mut pool, 0, GFP_KERNEL), None);
    assert_eq!(free(&mut pool, Some(1024), MAX_ORDER + 1, FreeEvent::Enter), FreeStep::Done);
    assert_eq!(take(&mut sys, &mut pool, 0, GFP_KERNEL), None);
    release(&mut pool, 1024, MAX_ORDER);
    assert_eq!(take(&mut sys, &mut pool, MAX_ORDER, GFP_KERNEL).unwrap().pfn, 1024);
}

#[test]
fn free_of_nothing_does_nothing() {
    let mut pool = Buddy::new();
    assert_eq!(free(&mut pool, None, 0, FreeEvent::Enter), FreeStep::Done);
    assert_eq!(rust_buddy_free_page(&mut pool, None), PageFree::Nothing);
}

#[test]
fn foreign_pages_are_told_apart() {
    let mut sys = System::new(1);
    let mut pool = Buddy::new();
    fill(&mut sys, &mut pool, GFP_KERNEL);
    assert_eq!(rust_buddy_free_page(&mut pool, Some(7)), PageFree::Foreign(7));
    let step = rust_buddy_alloc_page(&mut pool, InitEvent::Enter(GFP_KERNEL));
    assert_eq!(step, AllocStep::Page(Some(Block { pfn: 1024, order: 0, compound: false })));
    assert_eq!(rust_buddy_free_page(&mut pool, Some(1024)), PageFree::Pooled);
    let whole = take(&mut sys, &mut pool, MAX_ORDER, GFP_KERNEL);
    assert_eq!(whole.map(|b| b.pfn), Some(1024));
}

#[test]
fn second_span_serves_when_the_first_is_full() {
    let mut sys = System::new(2);
    let mut pool = Buddy::new();
    assert_eq!(take(&mut sys, &mut pool, 9, GFP_KERNEL).unwrap().pfn, 1024);
    assert_eq!(take(&mut sys, &mut pool, 3, GFP_KERNEL).unwrap().pfn, 1536);
    assert_eq!(take(&mut sys, &mut pool, 9, GFP_KERNEL), None);
}

#[test]
fn blocks_do_not_overlap() {
    let mut sys = System::new(1);
    let mut pool = Buddy::new();
    let mut used = [false; 512];
    for &order in &[0u32, 3, 1, 5, 0, 2, 4, 0] {
        let b = take(&mut sys, &mut pool, order, GFP_KERNEL).unwrap();
        let first = (b.pfn - 1024) as usize;
        assert_eq!(first % (1 << order), 0);
        for page in first..first + (1 << order) {
            assert!(!used[page]);
            used[page] = true;
        }
    }
}

#[test]
fn all_blocks_come_together_again() {
    let mut sys = System::new(1);
    let mut pool = Buddy::new();
    let mut taken = Vec::new();
    for order in [0u32, 1, 2, 3, 0, 4, 1] {
        taken.push(take(&mut sys, &mut pool, order, GFP_KERNEL).unwrap());
    }
    assert_eq!(take(&mut sys, &mut pool, 9, GFP_KERNEL), None);
    for b in taken.iter().rev() {
        release(&mut pool, b.pfn, b.order);
    }
    assert_eq!(take(&mut sys, &mut pool, 9, GFP_KERNEL).unwrap().pfn, 1024);
}

#[test]
fn single_pages_exhaust_a_span() {
    let mut sys = System::new(1);
    let mut pool = Buddy::new();
    let mut seen = vec![false; 512];
    for _ in 0..512 {
        let b = take(&mut sys, &mut pool, 0, GFP_KERNEL).unwrap();
        let page = (b.pfn - 1024) as usize;
        assert!(!seen[page]);
        seen[page] = true;
    }
    assert_eq!(take(&mut sys, &mut pool, 0, GFP_KERNEL), None);
}

#[test]
fn span_splits_low_half_first() {
    let mut span = Span::fresh(512);
    assert!(span.contains(512));
    assert!(span.contains(1023));
    assert!(!span.contains(1024));
    assert_eq!(span.rel(515), 3);
    assert_eq!(span.page(3), 515);
    assert_eq!(span.allocate(0), Some(0));
    assert_eq!(span.allocate(0), Some(1));
    assert_eq!(span.allocate(1), Some(2));
    assert_eq!(span.allocate(2), Some(4));
    span.free(0, 0);
    span.free(1, 0);
    assert_eq!(span.allocate(1), Some(0));
    assert_eq!(span.allocate(9), None);
}

#[test]
fn giving_back_at_once_leaves_no_trace() {
    for k in 0..=9u32 {
        let mut span = Span::fresh(0);
        let mut twin = Span::fresh(0);
        for order in [0u32, 3, 1] {
            assert_eq!(span.allocate(order), twin.allocate(order));
        }
        span.free(0, 0);
        twin.free(0, 0);
        if let Some(rel) = span.allocate(k) {
            span.free(rel, k);
        }
        for order in [0u32, 1, 0, 2, 5, 3, 8, 0, 6, 7, 4, 0] {
            assert_eq!(span.allocate(order), twin.allocate(order));
        }
    }
}

#[test]
fn empty_span_has_nothing() {
    let mut span = Span::empty();
    assert!(!span.contains(0));
    assert_eq!(span.allocate(0), None);
}

#[test]
fn tags_of_blocks() {
    assert_eq!(TAG_NONE, 0xFF);
    assert_eq!(TAG_FREE, 0x80);
}
