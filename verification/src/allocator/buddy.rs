//! A page pool of buddy spans taken from the system page allocator.
//!
//! The system allocator stays the owner of record: spans are taken from it as
//! compound folios, split and merged here with metadata kept beside the pages,
//! and requests that the pool cannot serve fall through to it.
//!
//! Taking a folio from the system is the caller's part. [`maybe_init`] and
//! [`allocate`] say when one is wanted and are called again with the outcome.

use vstd::prelude::*;
use crate::allocator::blocks;
use crate::allocator::request::Flags;
use crate::allocator::span;
use crate::allocator::span::{Span, SpanView};

verus! {

/// Highest order managed inside a span (2 MiB with 4 KiB pages).
pub const MAX_ORDER: u32 = 9;

/// Maximum number of spans in the pool.
pub const NR_SPANS: usize = 16;

/// The pool.
pub struct Buddy {
    ready: bool,
    spans: Vec<Span>,
}

/// What a [`Buddy`] stands for.
#[verifier::ext_equal]
pub struct BuddyView {
    /// Filling the pool has finished.
    pub ready: bool,
    /// The spans, in the order in which they were taken.
    pub spans: Seq<SpanView>,
}

/// What happened outside since the last call.
pub enum InitEvent {
    /// A request with these flags arrives.
    Enter(Flags),
    /// A folio of [`MAX_ORDER`] was asked for; this is its first page frame.
    Stolen(Option<u64>),
    /// A surplus folio went back.
    GivenBack,
}

/// What filling the pool needs next.
#[derive(Clone, Copy, PartialEq, Eq, Structural, Debug)]
pub enum InitStep {
    /// Nothing.
    Done,
    /// Ask the system for a compound folio of [`MAX_ORDER`] with flags that may
    /// sleep and do not warn, and dissolve the compound.
    Steal,
    /// Make this folio compound again and return it to the system.
    GiveBack(u64),
    /// The pool has just become ready; report it unless it has no spans.
    Ready { spans: u64 },
}

/// A block of pages taken from the pool.
#[derive(Clone, Copy, PartialEq, Eq, Structural, Debug)]
pub struct Block {
    /// First page frame.
    pub pfn: u64,
    /// The block has `2^order` pages.
    pub order: u32,
    /// The caller makes the pages a compound of `order`.
    pub compound: bool,
}

/// What an allocation needs next.
#[derive(Clone, Copy, PartialEq, Eq, Structural, Debug)]
pub enum AllocStep {
    /// Filling the pool comes first. After [`InitStep::Ready`], enter again.
    Init(InitStep),
    /// The block, or `None` where the pool has none.
    Page(Option<Block>),
}

/// How far giving back a block has come.
pub enum FreeEvent {
    Enter,
    /// The pages are no longer a compound.
    Dissolved,
}

/// What giving back a block needs next.
#[derive(Clone, Copy, PartialEq, Eq, Structural, Debug)]
pub enum FreeStep {
    /// Nothing.
    Done,
    /// Dissolve the compound that starts at this page frame.
    Dissolve(u64),
}

/// Where a single page went.
#[derive(Clone, Copy, PartialEq, Eq, Structural, Debug)]
pub enum PageFree {
    /// There was no page.
    Nothing,
    /// Back to the pool.
    Pooled,
    /// Not from the pool: free it as an order-0 page of the system.
    Foreign(u64),
}

/// First span from `from` on that holds `pfn`, or the number of spans.
pub open spec fn span_of(spans: Seq<SpanView>, pfn: u64, from: int) -> int
    decreases spans.len() - from,
{
    if from < 0 || from >= spans.len() || spans[from].has(pfn) {
        from
    } else {
        span_of(spans, pfn, from + 1)
    }
}

/// First span from `from` on that can serve `order`, or the number of spans.
pub open spec fn span_with(spans: Seq<SpanView>, order: int, from: int) -> int
    decreases spans.len() - from,
{
    if from < 0 || from >= spans.len() || span::fit(spans[from].free, order) < 10 {
        from
    } else {
        span_with(spans, order, from + 1)
    }
}

/// `b` is `a` with the block of `order` at `rel` taken.
pub open spec fn taken(a: SpanView, b: SpanView, rel: int, order: int) -> bool {
    &&& b.wf()
    &&& b.base_pfn == a.base_pfn
    &&& b.n_pages == a.n_pages
    &&& rel == a.free[span::fit(a.free, order)][0]
    &&& b.free == span::alloc_lists(a.free, order)
    &&& forall|i: int, o: int| #[trigger]
        b.used(i, o) <==> a.used(i, o) || (i == rel && o == order)
}

/// `b` is `a` with the block of `order` at `rel` given back.
pub open spec fn given_back(a: SpanView, b: SpanView, rel: int, order: int) -> bool {
    &&& b.wf()
    &&& b.base_pfn == a.base_pfn
    &&& b.n_pages == a.n_pages
    &&& b.free == span::free_lists(a.free, rel, order)
    &&& forall|i: int, o: int| #[trigger] b.used(i, o) <==> a.used(i, o) && i != rel
}

impl BuddyView {
    /// Every span is live and sound.
    pub open spec fn wf(self) -> bool {
        &&& self.spans.len() <= 16
        &&& forall|i: int|
            0 <= i < self.spans.len() ==> (#[trigger] self.spans[i]).wf() && self.spans[i].n_pages
                == 512
    }

    /// No page belongs to two spans.
    pub open spec fn apart(self) -> bool {
        forall|i: int, j: int, pfn: u64|
            0 <= i < self.spans.len() && 0 <= j < self.spans.len() && #[trigger] self.spans[i].has(
                pfn,
            ) && #[trigger] self.spans[j].has(pfn) ==> i == j
    }

    /// Some span holds `pfn`.
    pub open spec fn owns(self, pfn: u64) -> bool {
        exists|i: int| 0 <= i < self.spans.len() && #[trigger] self.spans[i].has(pfn)
    }

    /// The pool gave out the block of `order` at `pfn`, unless `pfn` is foreign.
    pub open spec fn may_free(self, pfn: u64, order: u32) -> bool {
        let i = span_of(self.spans, pfn, 0);
        i < self.spans.len() ==> self.spans[i].used(pfn - self.spans[i].base_pfn, order as int)
    }

    /// Filling the pool is over.
    pub open spec fn finished(self) -> (BuddyView, InitStep) {
        (
            BuddyView { ready: true, ..self },
            InitStep::Ready { spans: self.spans.len() as u64 },
        )
    }

    /// Another span is wanted while there is room for one.
    pub open spec fn filling(self) -> (BuddyView, InitStep) {
        if self.spans.len() < 16 {
            (self, InitStep::Steal)
        } else {
            self.finished()
        }
    }

    /// How filling the pool goes on after `event`.
    pub open spec fn init_next(self, event: InitEvent) -> (BuddyView, InitStep) {
        match event {
            InitEvent::Enter(flags) => if self.ready || !flags.may_block {
                (self, InitStep::Done)
            } else {
                self.filling()
            },
            InitEvent::Stolen(None) | InitEvent::GivenBack => self.finished(),
            InitEvent::Stolen(Some(pfn)) => if self.spans.len() >= 16 {
                (self, InitStep::GiveBack(pfn))
            } else {
                (BuddyView { spans: self.spans.push(span::fresh_view(pfn)), ..self }).filling()
            },
        }
    }

    /// `b` is what taking a block of `order` leaves of this pool, and `r` the block.
    pub open spec fn takes(self, b: BuddyView, order: u32, r: Option<Block>) -> bool {
        let i = span_with(self.spans, order as int, 0);
        if order > MAX_ORDER || i >= self.spans.len() {
            r is None && b == self
        } else {
            &&& r matches Some(block)
            &&& block.order == order
            &&& block.compound == (order > 0)
            &&& b.ready == self.ready
            &&& b.spans == self.spans.update(i, b.spans[i])
            &&& taken(
                self.spans[i],
                b.spans[i],
                block.pfn - self.spans[i].base_pfn,
                order as int,
            )
        }
    }

    /// `b` is what giving back the block of `order` at `pfn` leaves of this pool.
    pub open spec fn releases(self, b: BuddyView, pfn: u64, order: u32) -> bool {
        let i = span_of(self.spans, pfn, 0);
        if i >= self.spans.len() {
            b == self
        } else {
            &&& b.ready == self.ready
            &&& b.spans == self.spans.update(i, b.spans[i])
            &&& given_back(
                self.spans[i],
                b.spans[i],
                pfn - self.spans[i].base_pfn,
                order as int,
            )
        }
    }
}

impl BuddyView {
    /// `b` is this after an allocation of `order` went on with `event`, and `r` what it
    /// needs next.
    pub open spec fn serves(
        self,
        b: BuddyView,
        order: u32,
        event: InitEvent,
        r: AllocStep,
    ) -> bool {
        let (filled, step) = self.init_next(event);
        match step {
            InitStep::Done => r matches AllocStep::Page(block) && filled.takes(b, order, block),
            _ => r == AllocStep::Init(step) && b == filled,
        }
    }

    /// `b` is this after a single page was given back, and `r` where it went.
    pub open spec fn takes_back(self, b: BuddyView, page: Option<u64>, r: PageFree) -> bool {
        match page {
            None => r == PageFree::Nothing && b == self,
            Some(pfn) => if self.owns(pfn) {
                r == PageFree::Pooled && self.releases(b, pfn, 0)
            } else {
                r == PageFree::Foreign(pfn) && b == self
            },
        }
    }

    /// `b` is this after giving back a block went on with `event`, and `r` what it needs
    /// next.
    pub open spec fn frees(
        self,
        b: BuddyView,
        page: Option<u64>,
        order: u32,
        event: FreeEvent,
        r: FreeStep,
    ) -> bool {
        match page {
            Some(pfn) if order <= MAX_ORDER => match event {
                FreeEvent::Enter if order > 0 => r == FreeStep::Dissolve(pfn) && b == self,
                _ => r == FreeStep::Done && self.releases(b, pfn, order),
            },
            _ => r == FreeStep::Done && b == self,
        }
    }
}

impl View for Buddy {
    type V = BuddyView;

    closed spec fn view(&self) -> BuddyView {
        BuddyView {
            ready: self.ready,
            spans: Seq::new(self.spans@.len(), |i: int| self.spans@[i]@),
        }
    }
}

impl Buddy {
    /// The pool is sound.
    pub closed spec fn wf(&self) -> bool {
        &&& self@.wf()
        &&& forall|i: int| 0 <= i < self.spans@.len() ==> (#[trigger] self.spans@[i]).wf()
    }

    /// An empty pool.
    pub fn new() -> (r: Buddy)
        ensures
            r.wf(),
            r@ == (BuddyView { ready: false, spans: Seq::empty() }),
    {
        let r = Buddy { ready: false, spans: Vec::new() };
        assert(r@.spans =~= Seq::empty());
        r
    }

    pub proof fn lemma_wf(&self)
        requires
            self.wf(),
        ensures
            self@.wf(),
    {
    }

    /// Adds the folio at `pfn` as a span; false if the pool is full.
    fn add_span(&mut self, pfn: u64) -> (r: bool)
        requires
            old(self).wf(),
            pfn + 512 <= u64::MAX,
        ensures
            final(self).wf(),
            r == (old(self)@.spans.len() < 16),
            final(self)@ == if r {
                BuddyView { spans: old(self)@.spans.push(span::fresh_view(pfn)), ..old(self)@ }
            } else {
                old(self)@
            },
    {
        if self.spans.len() >= NR_SPANS {
            return false;
        }
        let s = Span::fresh(pfn);
        assert(s@.wf()) by {
            s.lemma_wf();
        }
        self.spans.push(s);
        proof {
            assert(self@.spans =~= old(self)@.spans.push(span::fresh_view(pfn)));
        }
        true
    }

    fn finish(&mut self) -> (r: InitStep)
        requires
            old(self).wf(),
        ensures
            final(self).wf(),
            (final(self)@, r) == old(self)@.finished(),
    {
        self.ready = true;
        let n = self.spans.len() as u64;
        assert(self@ =~= BuddyView { ready: true, ..old(self)@ });
        InitStep::Ready { spans: n }
    }

    fn fill(&mut self) -> (r: InitStep)
        requires
            old(self).wf(),
        ensures
            final(self).wf(),
            (final(self)@, r) == old(self)@.filling(),
    {
        if self.spans.len() < NR_SPANS {
            InitStep::Steal
        } else {
            self.finish()
        }
    }

    /// Index of the first span that holds `pfn`, or the number of spans.
    fn find(&self, pfn: u64) -> (r: usize)
        requires
            self.wf(),
        ensures
            r == span_of(self@.spans, pfn, 0),
            r <= self@.spans.len(),
            r < self@.spans.len() ==> self@.spans[r as int].has(pfn),
            self@.spans.len() == self.spans@.len(),
    {
        let mut i: usize = 0;
        while i < self.spans.len()
            invariant
                self.wf(),
                i <= self.spans@.len(),
                span_of(self@.spans, pfn, 0) == span_of(self@.spans, pfn, i as int),
            decreases self.spans@.len() - i,
        {
            assert(self@.spans[i as int] == self.spans@[i as int]@);
            if self.spans[i].contains(pfn) {
                return i;
            }
            i = i + 1;
        }
        i
    }

    /// Takes a block of `order` from the first span that has one.
    fn take(&mut self, order: u32) -> (r: Option<Block>)
        requires
            old(self).wf(),
        ensures
            final(self).wf(),
            old(self)@.takes(final(self)@, order, r),
    {
        if order > MAX_ORDER || self.spans.len() == 0 {
            return None;
        }
        let mut i: usize = 0;
        while i < self.spans.len()
            invariant
                self.wf(),
                order <= MAX_ORDER,
                self@ == old(self)@,
                i <= self.spans@.len(),
                span_with(self@.spans, order as int, 0) == span_with(
                    self@.spans,
                    order as int,
                    i as int,
                ),
            decreases self.spans@.len() - i,
        {
            let ghost before = self@;
            let ghost raw = self.spans@;
            assert(before.spans[i as int] == raw[i as int]@);
            let got = self.spans[i].allocate(order);
            proof {
                self.spans@[i as int].lemma_wf();
                assert(self@.spans =~= before.spans.update(i as int, self.spans@[i as int]@));
                assert forall|k: int| 0 <= k < self.spans@.len() implies (#[trigger] self.spans@[k]).wf() by {
                    if k != i {
                        assert(self.spans@[k] == raw[k]);
                    }
                }
            }
            if let Some(rel) = got {
                proof {
                    raw[i as int].lemma_wf();
                    let v = raw[i as int]@;
                    span::lemma_fit(v.free, order as int);
                    let l = v.free[span::fit(v.free, order as int)];
                    assert(l.contains(l[0]));
                }
                let pfn = self.spans[i].page(rel);
                return Some(Block { pfn, order, compound: order > 0 });
            }
            assert(self@ =~= before);
            i = i + 1;
        }
        None
    }

    fn release(&mut self, pfn: u64, order: u32)
        requires
            old(self).wf(),
            old(self)@.may_free(pfn, order),
        ensures
            final(self).wf(),
            old(self)@.releases(final(self)@, pfn, order),
    {
        let i = self.find(pfn);
        if i < self.spans.len() {
            let ghost before = self@;
            let ghost raw = self.spans@;
            assert(before.spans[i as int] == raw[i as int]@);
            let rel = self.spans[i].rel(pfn);
            self.spans[i].free(rel, order);
            proof {
                self.spans@[i as int].lemma_wf();
                assert(self@.spans =~= before.spans.update(i as int, self.spans@[i as int]@));
                assert forall|k: int| 0 <= k < self.spans@.len() implies (#[trigger] self.spans@[k]).wf() by {
                    if k != i {
                        assert(self.spans@[k] == raw[k]);
                    }
                }
            }
        }
    }
}

/// Fills the pool with spans of the system. Safe to call more than once.
///
/// Does nothing if the flags do not allow sleeping.
pub fn maybe_init(pool: &mut Buddy, event: InitEvent) -> (r: InitStep)
    requires
        old(pool).wf(),
        event matches InitEvent::Stolen(Some(pfn)) ==> pfn + 512 <= u64::MAX,
    ensures
        final(pool).wf(),
        (final(pool)@, r) == old(pool)@.init_next(event),
{
    match event {
        InitEvent::Enter(flags) => {
            if pool.ready || !flags.may_block {
                InitStep::Done
            } else {
                pool.fill()
            }
        },
        InitEvent::Stolen(None) => pool.finish(),
        InitEvent::GivenBack => pool.finish(),
        InitEvent::Stolen(Some(pfn)) => {
            if pool.add_span(pfn) {
                pool.fill()
            } else {
                InitStep::GiveBack(pfn)
            }
        },
    }
}

/// KiB in `spans` spans with pages of `page_size` bytes.
pub open spec fn kib_in(spans: u64, page_size: u64) -> int {
    512 * spans * page_size / 1024
}

/// KiB in `spans` spans with pages of `page_size` bytes.
pub fn pool_kib(spans: u64, page_size: u64) -> (r: u64)
    requires
        spans <= NR_SPANS,
        512 * spans * page_size <= u64::MAX,
    ensures
        r == kib_in(spans, page_size),
{
    assert(0 <= 512 * spans <= 512 * 16);
    spans * 512 * page_size / 1024
}

/// Fills the pool; entered with flags that may sleep.
pub fn init(pool: &mut Buddy, event: InitEvent) -> (r: InitStep)
    requires
        old(pool).wf(),
        event matches InitEvent::Stolen(Some(pfn)) ==> pfn + 512 <= u64::MAX,
    ensures
        final(pool).wf(),
        (final(pool)@, r) == old(pool)@.init_next(event),
{
    maybe_init(pool, event)
}

/// True if the page lies in a span of the pool.
pub fn owns(pool: &Buddy, page: Option<u64>) -> (r: bool)
    requires
        pool.wf(),
    ensures
        r == (page matches Some(pfn) && pool@.owns(pfn)),
{
    match page {
        None => false,
        Some(pfn) => {
            let i = pool.find(pfn);
            proof {
                lemma_span_of(pool@.spans, pfn, 0);
            }
            i < pool.spans.len()
        },
    }
}

/// Takes `2^order` contiguous pages from the pool, filling it first.
///
/// Gives `None` when the pool has no such block or `order` is above [`MAX_ORDER`].
pub fn allocate(pool: &mut Buddy, order: u32, event: InitEvent) -> (r: AllocStep)
    requires
        old(pool).wf(),
        event matches InitEvent::Stolen(Some(pfn)) ==> pfn + 512 <= u64::MAX,
    ensures
        final(pool).wf(),
        old(pool)@.serves(final(pool)@, order, event, r),
{
    match maybe_init(pool, event) {
        InitStep::Done => AllocStep::Page(pool.take(order)),
        step => AllocStep::Init(step),
    }
}

/// Takes a single page.
pub fn rust_buddy_alloc_page(pool: &mut Buddy, event: InitEvent) -> (r: AllocStep)
    requires
        old(pool).wf(),
        event matches InitEvent::Stolen(Some(pfn)) ==> pfn + 512 <= u64::MAX,
    ensures
        final(pool).wf(),
        old(pool)@.serves(final(pool)@, 0, event, r),
{
    allocate(pool, 0, event)
}

/// Gives back a single page, or says that it belongs to the system.
pub fn rust_buddy_free_page(pool: &mut Buddy, page: Option<u64>) -> (r: PageFree)
    requires
        old(pool).wf(),
        page matches Some(pfn) ==> old(pool)@.may_free(pfn, 0),
    ensures
        final(pool).wf(),
        old(pool)@.takes_back(final(pool)@, page, r),
{
    match page {
        None => PageFree::Nothing,
        Some(pfn) => {
            if owns(pool, page) {
                free(pool, page, 0, FreeEvent::Enter);
                PageFree::Pooled
            } else {
                PageFree::Foreign(pfn)
            }
        },
    }
}

/// Gives back a block obtained from [`allocate`] with the same `order`.
pub fn free(pool: &mut Buddy, page: Option<u64>, order: u32, event: FreeEvent) -> (r: FreeStep)
    requires
        old(pool).wf(),
        order <= MAX_ORDER ==> (page matches Some(pfn) ==> old(pool)@.may_free(pfn, order)),
    ensures
        final(pool).wf(),
        old(pool)@.frees(final(pool)@, page, order, event, r),
{
    match page {
        None => FreeStep::Done,
        Some(pfn) => {
            if order > MAX_ORDER {
                return FreeStep::Done;
            }
            match event {
                FreeEvent::Enter => {
                    if order > 0 {
                        return FreeStep::Dissolve(pfn);
                    }
                },
                FreeEvent::Dissolved => {},
            }
            pool.release(pfn, order);
            FreeStep::Done
        },
    }
}

proof fn lemma_span_of(spans: Seq<SpanView>, pfn: u64, from: int)
    requires
        0 <= from <= spans.len(),
    ensures
        from <= span_of(spans, pfn, from) <= spans.len(),
        span_of(spans, pfn, from) < spans.len() <==> exists|i: int|
            from <= i < spans.len() && #[trigger] spans[i].has(pfn),
        span_of(spans, pfn, from) < spans.len() ==> spans[span_of(spans, pfn, from)].has(pfn),
    decreases spans.len() - from,
{
    if from < spans.len() && !spans[from].has(pfn) {
        lemma_span_of(spans, pfn, from + 1);
    }
}

/// A block taken from the pool lies in it, was not given out already and can be
/// given back.
pub proof fn law_taken_block(v: BuddyView, b: BuddyView, order: u32, block: Block)
    requires
        v.wf(),
        v.apart(),
        v.takes(b, order, Some(block)),
    ensures
        b.wf(),
        b.apart(),
        v.owns(block.pfn),
        b.owns(block.pfn),
        b.may_free(block.pfn, order),
        !v.may_free(block.pfn, order),
{
    let i = span_with(v.spans, order as int, 0);
    lemma_span_with(v.spans, order as int, 0);
    let a = v.spans[i];
    let rel = block.pfn - a.base_pfn;
    lemma_taken_rel(a, b.spans[i], rel, order as int);
    assert(a.has(block.pfn));
    assert(b.spans[i].has(block.pfn));
    assert forall|k: int| 0 <= k < b.spans.len() implies (#[trigger] b.spans[k]).wf()
        && b.spans[k].n_pages == 512 && b.spans[k].base_pfn == v.spans[k].base_pfn by {
        if k != i {
            assert(b.spans[k] == v.spans[k]);
        }
    }
    assert forall|p: int, q: int, pfn: u64|
        0 <= p < b.spans.len() && 0 <= q < b.spans.len() && #[trigger] b.spans[p].has(pfn)
            && #[trigger] b.spans[q].has(pfn) implies p == q by {
        assert(v.spans[p].has(pfn) && v.spans[q].has(pfn));
    }
    lemma_span_of(v.spans, block.pfn, 0);
    lemma_span_of(b.spans, block.pfn, 0);
    assert(span_of(v.spans, block.pfn, 0) == i);
    assert(span_of(b.spans, block.pfn, 0) == i);
    assert(b.spans[i].used(rel, order as int));
    assert(!a.used(rel, order as int));
}

/// Giving back the block that was just taken restores the pool.
pub proof fn law_free_undoes_allocate(
    v: BuddyView,
    b: BuddyView,
    c: BuddyView,
    order: u32,
    block: Block,
)
    requires
        v.wf(),
        v.apart(),
        v.takes(b, order, Some(block)),
        b.releases(c, block.pfn, order),
    ensures
        c == v,
{
    law_taken_block(v, b, order, block);
    let i = span_with(v.spans, order as int, 0);
    lemma_span_with(v.spans, order as int, 0);
    let a = v.spans[i];
    let rel = block.pfn - a.base_pfn;
    lemma_taken_rel(a, b.spans[i], rel, order as int);
    lemma_span_of(b.spans, block.pfn, 0);
    assert(b.spans[i].has(block.pfn));
    assert(span_of(b.spans, block.pfn, 0) == i);
    let d = c.spans[i];
    span::law_free_undoes_alloc(a, order as int);
    assert(d.free == a.free);
    assert forall|k: int, o: int| #[trigger] d.used(k, o) <==> a.used(k, o) by {
        assert(b.spans[i].used(k, o) <==> a.used(k, o) || (k == rel && o == order));
        assert(!a.used(rel, o));
    }
    span::lemma_determined(a, d);
    assert(c.spans =~= v.spans);
}

/// Giving back a block leaves the spans apart.
pub proof fn law_release_apart(v: BuddyView, b: BuddyView, pfn: u64, order: u32)
    requires
        v.apart(),
        v.releases(b, pfn, order),
    ensures
        b.apart(),
{
    lemma_span_of(v.spans, pfn, 0);
    assert forall|p: int, q: int, x: u64|
        0 <= p < b.spans.len() && 0 <= q < b.spans.len() && #[trigger] b.spans[p].has(x)
            && #[trigger] b.spans[q].has(x) implies p == q by {
        assert(v.spans[p].has(x));
        assert(v.spans[q].has(x));
    }
}

/// A folio that shares no page with the pool leaves the spans apart.
pub proof fn law_new_span_apart(v: BuddyView, pfn: u64)
    requires
        v.apart(),
        forall|x: u64| pfn <= x < pfn + 512 ==> !#[trigger] v.owns(x),
    ensures
        v.init_next(InitEvent::Stolen(Some(pfn))).0.apart(),
{
    let w = v.init_next(InitEvent::Stolen(Some(pfn))).0;
    let n = v.spans.len() as int;
    assert forall|p: int, q: int, x: u64|
        0 <= p < w.spans.len() && 0 <= q < w.spans.len() && #[trigger] w.spans[p].has(x)
            && #[trigger] w.spans[q].has(x) implies p == q by {
        if p < n {
            assert(v.spans[p].has(x));
            assert(v.owns(x));
        }
        if q < n {
            assert(v.spans[q].has(x));
            assert(v.owns(x));
        }
    }
}

/// Blocks that the pool has given out do not overlap.
pub proof fn law_pool_blocks_disjoint(v: BuddyView, x: u64, o: u32, y: u64, p: u32)
    requires
        v.wf(),
        v.apart(),
        v.owns(x),
        v.owns(y),
        v.may_free(x, o),
        v.may_free(y, p),
        x < y,
    ensures
        x + blocks::block_pages(o as int) <= y,
{
    lemma_span_of(v.spans, x, 0);
    lemma_span_of(v.spans, y, 0);
    let i = span_of(v.spans, x, 0);
    let j = span_of(v.spans, y, 0);
    let a = v.spans[i];
    let b = v.spans[j];
    if i == j {
        span::law_blocks_disjoint(a, x - a.base_pfn, o as int, y - a.base_pfn, p as int);
    } else {
        assert(blocks::block_ok(a.tags, x - a.base_pfn));
        if a.base_pfn + 512 > y {
            assert(a.has(y));
            assert(b.has(y));
        }
    }
}

/// Once the pool is filled, and for callers that may not sleep, filling it does nothing.
pub proof fn law_init_idle(v: BuddyView, flags: Flags)
    requires
        v.ready || !flags.may_block,
    ensures
        v.init_next(InitEvent::Enter(flags)) == (v, InitStep::Done),
{
}

/// Filling ends with a pool that is ready, whatever the system handed out.
pub proof fn law_init_ready(v: BuddyView, event: InitEvent)
    ensures
        ({
            let (w, step) = v.init_next(event);
            &&& step is Ready ==> w.ready && step->spans == w.spans.len() as u64
            &&& event is GivenBack ==> step is Ready
            &&& event == InitEvent::Stolen(None) ==> step is Ready
            &&& step is Steal ==> w.spans.len() < 16
        }),
{
}

proof fn lemma_taken_rel(a: SpanView, b: SpanView, rel: int, order: int)
    requires
        a.wf(),
        0 <= order,
        span::fit(a.free, order) < 10,
        taken(a, b, rel, order),
    ensures
        0 <= rel < 512,
        forall|o: int| !#[trigger] a.used(rel, o),
        b.used(rel, order),
{
    span::lemma_fit(a.free, order);
    let o = span::fit(a.free, order);
    assert(a.free[o].contains(a.free[o][0]));
    assert(blocks::free_at(a.tags, rel, o));
}

proof fn lemma_span_with(spans: Seq<SpanView>, order: int, from: int)
    requires
        0 <= from <= spans.len(),
    ensures
        from <= span_with(spans, order, from) <= spans.len(),
        span_with(spans, order, from) < spans.len() ==> span::fit(
            spans[span_with(spans, order, from)].free,
            order,
        ) < 10,
    decreases spans.len() - from,
{
    if from < spans.len() && span::fit(spans[from].free, order) >= 10 {
        lemma_span_with(spans, order, from + 1);
    }
}

/// `block` is the first free block of order `o` in span `i`. No span before that has a
/// free block of at least `order`, nor has span `i` one between `order` and `o`.
pub open spec fn first_free(v: BuddyView, order: u32, block: Block, i: int, o: int) -> bool {
    &&& 0 <= i < v.spans.len()
    &&& order <= o <= 9
    &&& v.spans[i].free[o].len() > 0
    &&& block.pfn == v.spans[i].base_pfn + v.spans[i].free[o][0]
    &&& forall|k: int, p: int|
        0 <= k < i && order <= p <= 9 ==> #[trigger] v.spans[k].free[p].len() == 0
    &&& forall|p: int| order <= p < o ==> #[trigger] v.spans[i].free[p].len() == 0
}

/// Every span is tried: a block can be had exactly if some span has a free block that
/// is at least as large. It is the start of the smallest such block in the first span
/// that has one, and the other spans stay as they are.
pub proof fn law_every_span_tried(v: BuddyView, b: BuddyView, order: u32, r: Option<Block>)
    requires
        v.wf(),
        order <= 9,
        v.takes(b, order, r),
    ensures
        r is None <==> forall|i: int, o: int|
            0 <= i < v.spans.len() && order <= o <= 9 ==> #[trigger] v.spans[i].free[o].len() == 0,
        r is None ==> b == v,
        r matches Some(block) ==> {
            &&& block.order == order
            &&& block.compound == (order > 0)
            &&& exists|i: int, o: int| #[trigger]
                first_free(v, order, block, i, o) && b.spans == v.spans.update(i, b.spans[i])
        },
{
    lemma_span_with(v.spans, order as int, 0);
    lemma_span_with_first(v.spans, order as int, 0);
    let i = span_with(v.spans, order as int, 0);
    if i < v.spans.len() {
        let f = v.spans[i].free;
        span::lemma_fit_least(f, order as int);
        let o = span::fit(f, order as int);
        assert(v.spans[i].free[o].len() > 0);
        assert(first_free(v, order, r->0, i, o));
    }
}

/// The spans before the first that can serve `order` have no block for it.
proof fn lemma_span_with_first(spans: Seq<SpanView>, order: int, from: int)
    requires
        0 <= order,
        0 <= from <= spans.len(),
    ensures
        forall|k: int, p: int|
            from <= k < span_with(spans, order, from) && order <= p <= 9
                ==> #[trigger] spans[k].free[p].len() == 0,
    decreases spans.len() - from,
{
    if from < spans.len() && span::fit(spans[from].free, order) >= 10 {
        span::lemma_fit_least(spans[from].free, order);
        lemma_span_with_first(spans, order, from + 1);
    }
}

/// No block above the largest order is given out.
pub proof fn law_too_large(v: BuddyView, b: BuddyView, order: u32, r: Option<Block>)
    requires
        order > 9,
        v.takes(b, order, r),
    ensures
        r is None,
        b == v,
{
}

/// A folio that was taken becomes pages of the pool, all in one free block, unless the
/// pool is full; then it goes back. The pool asks for more until it is full, and nothing
/// else in it changes.
pub proof fn law_fills_up(v: BuddyView, pfn: u64, x: u64)
    requires
        v.spans.len() <= 16,
    ensures
        ({
            let (w, step) = v.init_next(InitEvent::Stolen(Some(pfn)));
            let n = v.spans.len() as int;
            &&& n == 16 ==> w == v && step == InitStep::GiveBack(pfn)
            &&& n < 16 ==> {
                &&& w.spans.len() == n + 1
                &&& forall|i: int| 0 <= i < n ==> #[trigger] w.spans[i] == v.spans[i]
                &&& pfn <= x < pfn + 512 ==> w.spans[n].has(x)
                &&& w.spans[n].free[9] == seq![0u16]
                &&& n < 15 ==> step == InitStep::Steal && w.ready == v.ready
                &&& n == 15 ==> step == (InitStep::Ready { spans: 16 }) && w.ready
            }
        }),
{
}

/// A caller that may sleep fills a pool that is not ready. Where the system has no more
/// folios, the pool makes do with the spans it has.
pub proof fn law_fill_begins(v: BuddyView, flags: Flags)
    requires
        !v.ready,
        flags.may_block,
        v.spans.len() <= 16,
    ensures
        v.spans.len() < 16 ==> v.init_next(InitEvent::Enter(flags)) == (v, InitStep::Steal),
        v.spans.len() == 16 ==> ({
            let (w, step) = v.init_next(InitEvent::Enter(flags));
            w.ready && w.spans == v.spans && step == (InitStep::Ready { spans: 16 })
        }),
        v.init_next(InitEvent::GivenBack) == v.init_next(InitEvent::Stolen(None)),
        ({
            let (w, step) = v.init_next(InitEvent::Stolen(None));
            w.ready && w.spans == v.spans && step == (InitStep::Ready {
                spans: v.spans.len() as u64,
            })
        }),
{
}

/// A page that was given back is no longer given out, nor is any page given back that
/// was not named.
pub proof fn law_given_back(v: BuddyView, b: BuddyView, pfn: u64, order: u32, x: u64, o: u32)
    requires
        v.wf(),
        v.apart(),
        v.owns(pfn),
        v.may_free(pfn, order),
        v.releases(b, pfn, order),
        v.owns(x),
    ensures
        b.owns(x),
        !b.may_free(pfn, order),
        x != pfn ==> b.may_free(x, o) == v.may_free(x, o),
{
    lemma_span_of(v.spans, pfn, 0);
    lemma_span_of(v.spans, x, 0);
    let i = span_of(v.spans, pfn, 0);
    let j = span_of(v.spans, x, 0);
    assert forall|k: int, y: u64| 0 <= k < v.spans.len() implies #[trigger] b.spans[k].has(y)
        == v.spans[k].has(y) by {
        if k != i {
            assert(b.spans[k] == v.spans[k]);
        }
    }
    assert(b.spans[j].has(x));
    assert(b.spans[i].has(pfn));
    lemma_span_of(b.spans, pfn, 0);
    lemma_span_of(b.spans, x, 0);
    assert(v.spans[span_of(b.spans, pfn, 0)].has(pfn));
    assert(v.spans[span_of(b.spans, x, 0)].has(x));
    let a = v.spans[i];
    let rel = pfn - a.base_pfn;
    assert(b.spans[i].used(rel, order as int) <==> a.used(rel, order as int) && rel != rel);
    if j == i {
        let q = x - a.base_pfn;
        assert(b.spans[i].used(q, o as int) <==> a.used(q, o as int) && q != rel);
    } else {
        assert(b.spans[j] == v.spans[j]);
    }
}

/// A pool that is filled serves every caller, and so does any pool a caller that may
/// not sleep: there is no block only if no span has a free one that is large enough.
/// Other callers fill the pool first.
pub proof fn law_allocate(v: BuddyView, b: BuddyView, order: u32, flags: Flags, r: AllocStep)
    requires
        v.wf(),
        v.serves(b, order, InitEvent::Enter(flags), r),
    ensures
        v.ready || !flags.may_block ==> r is Page,
        !v.ready && flags.may_block ==> r is Init && b.spans == v.spans,
        r == AllocStep::Page(None) ==> b == v && (order > 9 || forall|i: int, o: int|
            0 <= i < v.spans.len() && order <= o <= 9 ==> #[trigger] v.spans[i].free[o].len()
                == 0),
        r matches AllocStep::Page(Some(block)) ==> {
            &&& block.order == order
            &&& order <= 9
            &&& exists|i: int, o: int| #[trigger] first_free(v, order, block, i, o)
        },
{
    if let AllocStep::Page(block) = r {
        if order <= 9 {
            law_every_span_tried(v, b, order, block);
        }
    }
}

/// While the pool is being filled no block is given out.
pub proof fn law_fill_gives_nothing(
    v: BuddyView,
    b: BuddyView,
    order: u32,
    event: InitEvent,
    r: AllocStep,
)
    requires
        !(event is Enter),
        v.serves(b, order, event, r),
    ensures
        r is Init,
        r->Init_0 != InitStep::Done,
        (b, r->Init_0) == v.init_next(event),
{
}

/// The pool's size counts every page of its spans, in whole KiB: it doubles with the spans,
/// and so does it with the page size where a span is a whole number of KiB.
pub proof fn law_kib(spans: u64, page_size: u64)
    ensures
        1024 * kib_in(spans, page_size) <= 512 * spans * page_size,
        512 * spans * page_size < 1024 * kib_in(spans, page_size) + 1024,
        page_size % 2 == 0 ==> 2 * kib_in(spans, page_size) == spans * page_size,
{
    let bytes = 512 * spans * page_size;
    if page_size % 2 == 0 {
        let h = page_size as int / 2;
        assert(bytes == 1024 * (spans * h)) by (nonlinear_arith)
            requires
                page_size == 2 * h,
                bytes == 512 * spans * page_size,
        ;
        assert(spans * page_size == 2 * (spans * h)) by (nonlinear_arith)
            requires
                page_size == 2 * h,
        ;
    }
}

/// A page of the pool goes back to it, and every other page to the system.
pub proof fn law_page_goes_home(v: BuddyView, b: BuddyView, page: Option<u64>, r: PageFree)
    requires
        v.wf(),
        v.apart(),
        page matches Some(pfn) ==> v.may_free(pfn, 0),
        v.takes_back(b, page, r),
    ensures
        page is None ==> r == PageFree::Nothing && b == v,
        page matches Some(pfn) ==> {
            let ours = exists|i: int| 0 <= i < v.spans.len() && #[trigger] v.spans[i].has(pfn);
            &&& ours ==> r == PageFree::Pooled && b.owns(pfn) && !b.may_free(pfn, 0)
            &&& !ours ==> r == PageFree::Foreign(pfn) && b == v
        },
{
    if let Some(pfn) = page {
        if v.owns(pfn) {
            law_given_back(v, b, pfn, 0, pfn, 0);
        }
    }
}

/// A compound is dissolved before its block goes back, a single page goes back at once,
/// and a block above the largest order is none of the pool's.
pub proof fn law_dissolved_first(
    v: BuddyView,
    b: BuddyView,
    pfn: u64,
    order: u32,
    event: FreeEvent,
    r: FreeStep,
)
    requires
        v.frees(b, Some(pfn), order, event, r),
    ensures
        event is Enter && 0 < order <= 9 ==> r == FreeStep::Dissolve(pfn) && b == v,
        event is Enter && order == 0 ==> r == FreeStep::Done && v.releases(b, pfn, 0),
        event is Dissolved && order <= 9 ==> r == FreeStep::Done && v.releases(b, pfn, order),
        order > 9 ==> r == FreeStep::Done && b == v,
{
}

/// No page, and a block above the largest order, is none of the pool's.
pub proof fn law_no_page(v: BuddyView, b: BuddyView, order: u32, event: FreeEvent, r: FreeStep)
    requires
        v.frees(b, None, order, event, r),
    ensures
        r == FreeStep::Done,
        b == v,
{
}

} // verus!
