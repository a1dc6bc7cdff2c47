//! One span of the page pool: 512 pages, split and merged as buddies.
//!
//! The free blocks of each order form a linked list in `next`, and `state`
//! holds the block tags of [`blocks`].

use vstd::prelude::*;
use crate::allocator::blocks;
use crate::allocator::buddy::MAX_ORDER;

verus! {

/// Number of order buckets, `0..=MAX_ORDER`.
pub const NR_ORDERS: usize = 10;

/// Pages per span.
pub const SPAN_PAGES: usize = 512;

/// End of a free list.
pub const NONE: u16 = 0xFFFF;

/// One span: its pages, and the free blocks of each order as linked lists.
pub struct Span {
    base_pfn: u64,
    n_pages: u32,
    free_head: [u16; NR_ORDERS],
    next: [u16; SPAN_PAGES],
    state: [u8; SPAN_PAGES],
    lists: Ghost<Seq<Seq<u16>>>,
}

/// What a [`Span`] stands for.
#[verifier::ext_equal]
pub struct SpanView {
    /// First page frame of the span.
    pub base_pfn: u64,
    /// Pages in the span: none, or [`SPAN_PAGES`].
    pub n_pages: u32,
    /// For each order, the first pages of its free blocks, next to be taken first.
    pub free: Seq<Seq<u16>>,
    /// For each page, its block tag.
    pub tags: Seq<u8>,
}

impl SpanView {
    /// The block structure is sound and the lists name exactly the free blocks.
    pub open spec fn wf(self) -> bool {
        &&& self.n_pages == 0 || self.n_pages == 512
        &&& self.base_pfn + self.n_pages <= u64::MAX
        &&& self.tags.len() == 512
        &&& self.n_pages == 0 ==> forall|i: int| 0 <= i < 512 ==> #[trigger] self.tags[i] == blocks::TAG_NONE
        &&& self.n_pages == 512 ==> blocks::tags_ok(self.tags)
        &&& lists_match(self.free, self.tags)
    }

    /// A block of `order` starting at `rel` is allocated.
    pub open spec fn used(self, rel: int, order: int) -> bool {
        blocks::used_at(self.tags, rel, order)
    }

    /// `w` is this after a block of order `want` was asked for and `r` came back.
    pub open spec fn takes(self, w: SpanView, want: int, r: Option<u16>) -> bool {
        &&& w.base_pfn == self.base_pfn
        &&& w.n_pages == self.n_pages
        &&& r is None <==> fit(self.free, want) >= 10
        &&& r is None ==> w == self
        &&& r matches Some(rel) ==> {
            &&& rel == self.free[fit(self.free, want)][0]
            &&& w.free == alloc_lists(self.free, want)
            &&& forall|i: int, o: int|
                #[trigger] w.used(i, o) <==> self.used(i, o) || (i == rel && o == want)
        }
    }

    /// `w` is this after the block of `order` at `rel` was given back.
    pub open spec fn regains(self, w: SpanView, rel: int, order: int) -> bool {
        &&& w.base_pfn == self.base_pfn
        &&& w.n_pages == self.n_pages
        &&& w.free == free_lists(self.free, rel, order)
        &&& forall|i: int, o: int| #[trigger] w.used(i, o) <==> self.used(i, o) && i != rel
    }

    /// `pfn` lies in the span.
    pub open spec fn has(self, pfn: u64) -> bool {
        self.base_pfn <= pfn < self.base_pfn + self.n_pages
    }
}

/// The free lists hold, once each, exactly the blocks that `tags` marks free.
pub open spec fn lists_match(free: Seq<Seq<u16>>, tags: Seq<u8>) -> bool {
    &&& free.len() == 10
    &&& forall|o: int| 0 <= o < 10 ==> (#[trigger] free[o]).no_duplicates()
    &&& forall|o: int, i: u16|
        #![trigger free[o].contains(i)]
        0 <= o < 10 ==> (free[o].contains(i) <==> blocks::free_at(tags, i as int, o))
}

/// Ten empty free lists.
pub open spec fn no_lists() -> Seq<Seq<u16>> {
    Seq::new(10, |o: int| Seq::<u16>::empty())
}

/// A span that is one free block.
pub open spec fn fresh_view(pfn: u64) -> SpanView {
    SpanView {
        base_pfn: pfn,
        n_pages: 512,
        free: no_lists().update(9, seq![0u16]),
        tags: Seq::new(512, |i: int| blocks::TAG_NONE).update(0, (blocks::TAG_FREE + 9) as u8),
    }
}

/// Smallest order from `want` up that has a free block, or 10.
pub open spec fn fit(free: Seq<Seq<u16>>, want: int) -> int
    decreases 10 - want,
{
    if want >= 10 {
        10
    } else if free[want].len() > 0 {
        want
    } else {
        fit(free, want + 1)
    }
}

/// Free lists after the block at `rel` of order `from` is halved down to `to`:
/// each upper half goes to the front of its list.
pub open spec fn split_lists(free: Seq<Seq<u16>>, rel: int, from: int, to: int) -> Seq<Seq<u16>>
    decreases from,
{
    if from <= to || from <= 0 {
        free
    } else {
        let o = from - 1;
        split_lists(
            free.update(o, seq![(rel + blocks::block_pages(o)) as u16] + free[o]),
            rel,
            o,
            to,
        )
    }
}

/// Free lists after a block of order `want` is taken.
pub open spec fn alloc_lists(free: Seq<Seq<u16>>, want: int) -> Seq<Seq<u16>> {
    let o = fit(free, want);
    split_lists(free.update(o, free[o].drop_first()), free[o][0] as int, o, want)
}

/// Free lists after the block at `rel` is given back: it merges with its buddy
/// as long as that is free, and the result goes to the front of its list.
pub open spec fn free_lists(free: Seq<Seq<u16>>, rel: int, order: int) -> Seq<Seq<u16>>
    decreases 9 - order,
{
    if order < 9 && free[order].contains(blocks::buddy_of(rel, order) as u16) {
        free_lists(
            free.update(order, free[order].remove_value(blocks::buddy_of(rel, order) as u16)),
            blocks::parent_of(rel, order),
            order + 1,
        )
    } else {
        free.update(order, seq![rel as u16] + free[order])
    }
}

/// Tags after a block of `order` at `rel` is stamped with `tag`.
pub open spec fn stamp(tags: Seq<u8>, rel: int, order: int, tag: u8) -> Seq<u8> {
    Seq::new(
        tags.len(),
        |i: int|
            if i == rel {
                tag
            } else if rel < i < rel + blocks::block_pages(order) {
                blocks::TAG_NONE
            } else {
                tags[i]
            },
    )
}

/// `head` and `next` spell out the list `l`.
spec fn chain(head: u16, next: Seq<u16>, l: Seq<u16>) -> bool {
    &&& head == if l.len() == 0 {
        NONE
    } else {
        l[0]
    }
    &&& forall|j: int| 0 <= j < l.len() ==> #[trigger] l[j] < 512
    &&& forall|j: int|
        0 <= j < l.len() ==> #[trigger] next[l[j] as int] == if j + 1 < l.len() {
            l[j + 1]
        } else {
            NONE
        }
    &&& l.no_duplicates()
}

/// No page starts a block on two lists.
spec fn apart(lists: Seq<Seq<u16>>) -> bool {
    forall|o: int, p: int, x: u16|
        0 <= o < lists.len() && 0 <= p < lists.len() && o != p
            && #[trigger] lists[o].contains(x) ==> !#[trigger] lists[p].contains(x)
}

/// A block that starts at page `x` is on some list.
spec fn listed(lists: Seq<Seq<u16>>, x: u16) -> bool {
    exists|o: int| 0 <= o < lists.len() && #[trigger] lists[o].contains(x)
}

/// The pages on no list link to nothing.
spec fn loose(next: Seq<u16>, lists: Seq<Seq<u16>>) -> bool {
    forall|x: u16| x < 512 && !listed(lists, x) ==> #[trigger] next[x as int] == NONE
}

proof fn lemma_pages_of(order: u32)
    requires
        order <= 9,
    ensures
        (1usize << order) == blocks::block_pages(order as int),
{
    assert((1usize << 0u32) == 1 && (1usize << 1u32) == 2 && (1usize << 2u32) == 4 && (1usize
        << 3u32) == 8 && (1usize << 4u32) == 16 && (1usize << 5u32) == 32 && (1usize << 6u32) == 64
        && (1usize << 7u32) == 128 && (1usize << 8u32) == 256 && (1usize << 9u32) == 512)
        by (bit_vector);
}

proof fn lemma_free_tag(order: u32)
    requires
        order <= 9,
    ensures
        blocks::TAG_FREE | (order as u8) == blocks::TAG_FREE + order,
{
    let x = order as u8;
    assert(x <= 9u8 ==> 0x80u8 | x == 0x80u8 + x) by (bit_vector);
}

/// Flipping or clearing the bit of a block size moves between buddies.
proof fn lemma_flip(rel: u16, s: u16, t: u16)
    by (bit_vector)
    requires
        rel < 512,
        s == 1 || s == 2 || s == 4 || s == 8 || s == 16 || s == 32 || s == 64 || s == 128 || s == 256,
        t == 2 * s,
        rel % s == 0,
    ensures
        rel % t == 0 ==> (rel ^ s) == rel + s && (rel & !s) == rel,
        rel % t != 0 ==> (rel ^ s) == rel - s && (rel & !s) == rel - s,
{
}

proof fn lemma_shift16(order: u32)
    requires
        order < 9,
    ensures
        (1u16 << order) == blocks::block_pages(order as int),
{
    assert((1u16 << 0u32) == 1 && (1u16 << 1u32) == 2 && (1u16 << 2u32) == 4 && (1u16 << 3u32) == 8
        && (1u16 << 4u32) == 16 && (1u16 << 5u32) == 32 && (1u16 << 6u32) == 64 && (1u16 << 7u32)
        == 128 && (1u16 << 8u32) == 256) by (bit_vector);
}

proof fn lemma_buddy_bits(rel: u16, order: u32)
    requires
        rel < 512,
        order < 9,
        blocks::aligned(rel as int, order as int),
    ensures
        (rel ^ (1u16 << order)) == blocks::buddy_of(rel as int, order as int),
        (rel & !(1u16 << order)) == blocks::parent_of(rel as int, order as int),
{
    lemma_shift16(order);
    blocks::lemma_aligned_mod(rel as int, order as int);
    blocks::lemma_aligned_mod(rel as int, order + 1);
    let s = 1u16 << order;
    lemma_flip(rel, s, (2 * s) as u16);
}

impl View for Span {
    type V = SpanView;

    closed spec fn view(&self) -> SpanView {
        SpanView {
            base_pfn: self.base_pfn,
            n_pages: self.n_pages,
            free: self.lists@,
            tags: self.state@,
        }
    }
}

impl Span {
    /// The arrays spell out the free lists.
    closed spec fn linked(&self) -> bool {
        &&& self.lists@.len() == 10
        &&& apart(self.lists@)
        &&& forall|o: int|
            0 <= o < 10 ==> chain(#[trigger] self.free_head@[o], self.next@, self.lists@[o])
        &&& loose(self.next@, self.lists@)
    }

    /// The span is sound.
    pub closed spec fn wf(&self) -> bool {
        &&& self.linked()
        &&& self@.wf()
    }

    pub proof fn lemma_wf(&self)
        requires
            self.wf(),
        ensures
            self@.wf(),
    {
    }

    /// A span without pages.
    pub fn empty() -> (r: Span)
        ensures
            r.wf(),
            r@.base_pfn == 0,
            r@.n_pages == 0,
            r@.free == no_lists(),
            forall|i: int, o: int| !#[trigger] r@.used(i, o),
    {
        let r = Span {
            base_pfn: 0,
            n_pages: 0,
            free_head: [NONE; NR_ORDERS],
            next: [NONE; SPAN_PAGES],
            state: [blocks::TAG_NONE; SPAN_PAGES],
            lists: Ghost(no_lists()),
        };
        assert(forall|o: int, i: u16| 0 <= o < 10 ==> !#[trigger] r@.free[o].contains(i));
        r
    }

    /// A span over the 512 page frames from `pfn`, as one free block.
    pub fn fresh(pfn: u64) -> (r: Span)
        requires
            pfn + SPAN_PAGES <= u64::MAX,
        ensures
            r.wf(),
            r@ == fresh_view(pfn),
    {
        let mut r = Span::empty();
        r.base_pfn = pfn;
        r.n_pages = SPAN_PAGES as u32;
        proof {
            assert(r@.free == no_lists());
            assert forall|o: int| 0 <= o < 10 implies !(#[trigger] r@.free[o]).contains(0) by {}
        }
        let ghost t0 = r@.tags;
        r.push_free(0, MAX_ORDER);
        proof {
            blocks::lemma_fresh();
            assert(r@.tags =~= fresh_view(pfn).tags);
            assert(seq![0u16] + no_lists()[9] =~= seq![0u16]);
            assert(r@.free =~= fresh_view(pfn).free);
            lemma_fresh_match();
        }
        r
    }

    /// `pfn` lies in the span.
    pub fn contains(&self, pfn: u64) -> (r: bool)
        requires
            self.wf(),
        ensures
            r == self@.has(pfn),
    {
        self.n_pages != 0 && pfn >= self.base_pfn && pfn < self.base_pfn + self.n_pages as u64
    }

    /// Position of page frame `pfn` in the span.
    pub fn rel(&self, pfn: u64) -> (r: u16)
        requires
            self.wf(),
            self@.has(pfn),
        ensures
            r == pfn - self@.base_pfn,
    {
        (pfn - self.base_pfn) as u16
    }

    /// Page frame at position `rel` of the span.
    pub fn page(&self, rel: u16) -> (pfn: u64)
        requires
            self.wf(),
            rel < self@.n_pages,
        ensures
            pfn == self@.base_pfn + rel,
    {
        self.base_pfn + rel as u64
    }

    /// Puts the block at `rel` at the front of the free list of `order`.
    fn push_free(&mut self, rel: u16, order: u32)
        requires
            old(self).linked(),
            order <= MAX_ORDER,
            rel + blocks::block_pages(order as int) <= 512,
            forall|o: int| 0 <= o < 10 ==> !(#[trigger] old(self)@.free[o]).contains(rel),
        ensures
            final(self).linked(),
            final(self)@ == (SpanView {
                free: old(self)@.free.update(
                    order as int,
                    seq![rel] + old(self)@.free[order as int],
                ),
                tags: stamp(
                    old(self)@.tags,
                    rel as int,
                    order as int,
                    (blocks::TAG_FREE + order) as u8,
                ),
                ..old(self)@
            }),
    {
        proof {
            lemma_pages_of(order);
            lemma_free_tag(order);
        }
        let o = order as usize;
        let idx = rel as usize;
        self.state[idx] = blocks::TAG_FREE | (order as u8);
        self.next[idx] = self.free_head[o];
        self.free_head[o] = rel;
        let n = 1usize << order;
        let ghost tags1 = self.state@;
        let mut i: usize = 1;
        while i < n
            invariant
                1 <= i <= n,
                n == blocks::block_pages(order as int),
                idx == rel,
                rel + n <= 512,
                self.base_pfn == old(self).base_pfn,
                self.n_pages == old(self).n_pages,
                self.lists == old(self).lists,
                self.next@ == old(self).next@.update(rel as int, old(self).free_head@[order as int]),
                self.free_head@ == old(self).free_head@.update(order as int, rel),
                order <= 9,
                forall|k: int|
                    0 <= k < 512 ==> #[trigger] self.state@[k] == if rel < k < rel + i {
                        blocks::TAG_NONE
                    } else {
                        tags1[k]
                    },
            decreases n - i,
        {
            self.state[idx + i] = blocks::TAG_NONE;
            i = i + 1;
        }
        let ghost olds = self.lists@;
        proof {
            let l = seq![rel] + olds[order as int];
            self.lists@ = olds.update(order as int, l);
            assert(self.state@ =~= stamp(
                old(self).state@,
                rel as int,
                order as int,
                (blocks::TAG_FREE + order) as u8,
            ));
            assert forall|p: int| 0 <= p < 10 implies chain(
                #[trigger] self.free_head@[p],
                self.next@,
                self.lists@[p],
            ) by {
                assert(chain(old(self).free_head@[p], old(self).next@, olds[p]));
                assert(!old(self)@.free[p].contains(rel));
                if p == order {
                    assert(l[0] == rel);
                    assert forall|j: int| #![trigger l[j]] 0 <= j < l.len() implies l[j] < 512
                        && self.next@[l[j] as int] == if j + 1 < l.len() {
                        l[j + 1]
                    } else {
                        NONE
                    } by {
                        if j > 0 {
                            assert(l[j] == olds[p][j - 1]);
                            assert(olds[p].contains(l[j]));
                        }
                    }
                    assert(l.no_duplicates()) by {
                        assert forall|a: int, b: int|
                            0 <= a < l.len() && 0 <= b < l.len() && a != b implies l[a] != l[b] by {
                            if a > 0 {
                                assert(olds[p].contains(olds[p][a - 1]));
                            }
                            if b > 0 {
                                assert(olds[p].contains(olds[p][b - 1]));
                            }
                        }
                    }
                } else {
                    assert forall|j: int| #![trigger olds[p][j]] 0 <= j < olds[p].len() implies self.next@[olds[p][j] as int] == if j + 1 < olds[p].len() {
                        olds[p][j + 1]
                    } else {
                        NONE
                    } by {
                        assert(olds[p].contains(olds[p][j]));
                    }
                }
            }
            assert forall|a: int, b: int, x: u16|
                0 <= a < 10 && 0 <= b < 10 && a != b && #[trigger] self.lists@[a].contains(
                    x,
                ) implies !#[trigger] self.lists@[b].contains(x) by {
                lemma_push_contains(olds[order as int], rel, x);
                assert(!old(self)@.free[a].contains(rel));
                assert(!old(self)@.free[b].contains(rel));
                assert(a != order ==> olds[a].contains(x));
            }
            assert forall|x: u16| x < 512 && !listed(self.lists@, x) implies #[trigger] self.next@[x as int]
                == NONE by {
                lemma_push_contains(olds[order as int], rel, x);
                assert(!self.lists@[order as int].contains(x));
                assert(!listed(olds, x)) by {
                    if listed(olds, x) {
                        let p = choose|p: int| 0 <= p < olds.len() && #[trigger] olds[p].contains(x);
                        assert(self.lists@[p].contains(x));
                    }
                }
                assert(old(self).next@[x as int] == NONE);
            }
        }
    }

    /// Takes the first free block of `order`, if there is one.
    fn pop_free(&mut self, order: u32) -> (r: Option<u16>)
        requires
            old(self).linked(),
            order <= MAX_ORDER,
        ensures
            final(self).linked(),
            r is None <==> old(self)@.free[order as int].len() == 0,
            r is None ==> final(self)@ == old(self)@,
            r matches Some(rel) ==> {
                &&& rel == old(self)@.free[order as int][0]
                &&& rel < 512
                &&& final(self)@ == (SpanView {
                    free: old(self)@.free.update(
                        order as int,
                        old(self)@.free[order as int].drop_first(),
                    ),
                    tags: old(self)@.tags.update(rel as int, order as u8),
                    ..old(self)@
                })
            },
    {
        let o = order as usize;
        let rel = self.free_head[o];
        assert(chain(self.free_head@[o as int], self.next@, self.lists@[o as int]));
        if rel == NONE {
            proof {
                if self.lists@[o as int].len() > 0 {
                    assert(self.lists@[o as int][0] < 512);
                }
            }
            return None;
        }
        let ghost olds = self.lists@;
        let idx = rel as usize;
        assert(olds[o as int][0] == rel);
        self.free_head[o] = self.next[idx];
        self.next[idx] = NONE;
        self.state[idx] = order as u8;
        proof {
            let l = olds[o as int];
            assert(l.remove(0) =~= l.drop_first());
            lemma_unlink(
                old(self).free_head@,
                old(self).next@,
                olds,
                o as int,
                0,
                self.free_head@,
                self.next@,
            );
            self.lists@ = olds.update(o as int, l.drop_first());
        }
        Some(rel)
    }

    /// Removes the block at `rel` from the free list of `order`.
    fn unlink_free(&mut self, rel: u16, order: u32)
        requires
            old(self).linked(),
            order <= MAX_ORDER,
        ensures
            final(self).linked(),
            final(self)@ == (SpanView {
                free: old(self)@.free.update(
                    order as int,
                    old(self)@.free[order as int].remove_value(rel),
                ),
                ..old(self)@
            }),
    {
        let o = order as usize;
        let ghost l = self.lists@[o as int];
        assert(chain(self.free_head@[o as int], self.next@, l));
        let mut prev = NONE;
        let mut cur = self.free_head[o];
        let ghost mut j: int = 0;
        proof {
            if l.len() > 0 {
                assert(l[0] < 512);
            }
        }
        while cur != NONE
            invariant
                o == order,
                o < 10,
                *self == *old(self),
                self.linked(),
                l == self.lists@[o as int],
                chain(self.free_head@[o as int], self.next@, l),
                0 <= j <= l.len(),
                cur == if j < l.len() {
                    l[j]
                } else {
                    NONE
                },
                prev == if j > 0 {
                    l[j - 1]
                } else {
                    NONE
                },
                forall|k: int| 0 <= k < j ==> l[k] != rel,
            decreases l.len() - j,
        {
            assert(j < l.len());
            assert(l[j] < 512);
            if cur == rel {
                let next = self.next[rel as usize];
                if prev == NONE {
                    proof {
                        if j > 0 {
                            assert(l[j - 1] < 512);
                        }
                    }
                    self.free_head[o] = next;
                } else {
                    assert(l[j - 1] < 512);
                    self.next[prev as usize] = next;
                }
                self.next[rel as usize] = NONE;
                proof {
                    lemma_remove_at(l, rel, j);
                    lemma_unlink(
                        old(self).free_head@,
                        old(self).next@,
                        old(self).lists@,
                        o as int,
                        j,
                        self.free_head@,
                        self.next@,
                    );
                    self.lists@ = old(self).lists@.update(o as int, l.remove(j));
                }
                return;
            }
            prev = cur;
            cur = self.next[cur as usize];
            proof {
                j = j + 1;
                if j < l.len() {
                    assert(l[j] < 512);
                }
            }
        }
        proof {
            assert(!l.contains(rel)) by {
                if l.contains(rel) {
                    let k = choose|k: int| 0 <= k < l.len() && l[k] == rel;
                    assert(l[k] != rel || k >= j);
                    assert(l[j] < 512);
                }
            }
            l.index_of_first_ensures(rel);
            assert(old(self).lists@.update(o as int, l) =~= old(self).lists@);
        }
    }

    /// Takes a block of order `want`, halving the smallest free block that fits.
    pub fn allocate(&mut self, want: u32) -> (r: Option<u16>)
        requires
            old(self).wf(),
        ensures
            final(self).wf(),
            old(self)@.takes(final(self)@, want as int, r),
    {
        let mut order = want;
        while order <= MAX_ORDER
            invariant
                want <= order,
                self@ == old(self)@,
                self.wf(),
                fit(self@.free, want as int) == fit(self@.free, order as int),
            decreases 10 - order,
        {
            let ghost free0 = self@.free;
            let ghost tags0 = self@.tags;
            if let Some(rel) = self.pop_free(order) {
                let ghost top = order;
                let ghost mut eff = tags0.update(rel as int, order as u8);
                proof {
                    assert(fit(free0, order as int) == order);
                    assert(free0[order as int].contains(rel));
                    assert(blocks::free_at(tags0, rel as int, order as int));
                    assert(old(self)@.n_pages == 512) by {
                        assert(tags0[rel as int] != blocks::TAG_NONE);
                    }
                    blocks::lemma_take(tags0, rel as int, order as int);
                    lemma_match_pop(free0, tags0, order as int);
                }
                while order > want
                    invariant
                        want <= order <= top <= 9,
                        rel < 512,
                        blocks::free_at(tags0, rel as int, top as int),
                        self.linked(),
                        self@.base_pfn == old(self)@.base_pfn,
                        self@.n_pages == old(self)@.n_pages,
                        self@.tags.len() == 512,
                        blocks::tags_ok(eff),
                        blocks::used_at(eff, rel as int, order as int),
                        lists_match(self@.free, eff),
                        forall|k: int|
                            0 <= k < 512 && k != rel ==> #[trigger] self@.tags[k] == eff[k],
                        split_lists(self@.free, rel as int, order as int, want as int)
                            == alloc_lists(free0, want as int),
                        forall|i: int, o: int|
                            #[trigger] blocks::used_at(eff, i, o) <==> blocks::used_at(tags0, i, o)
                                || (i == rel && o == order),
                    decreases order,
                {
                    order = order - 1;
                    let ghost eff0 = eff;
                    let ghost free1 = self@.free;
                    let ghost st1 = self@.tags;
                    proof {
                        assert(blocks::block_ok(eff0, rel as int));
                        blocks::lemma_aligned_down(rel as int, order as int);
                        lemma_shift16(order);
                        lemma_buddy_bits(rel, order);
                        blocks::lemma_buddy(rel as int, order as int);
                        blocks::lemma_split(eff0, rel as int, order as int);
                    }
                    let buddy = rel ^ (1u16 << order);
                    proof {
                        assert(buddy == rel + blocks::block_pages(order as int));
                        assert forall|o: int| 0 <= o < 10 implies !(
                        #[trigger] self@.free[o]).contains(buddy) by {
                            assert(eff0[buddy as int] == blocks::TAG_NONE);
                        }
                    }
                    self.push_free(buddy, order);
                    proof {
                        let mid = eff0.update(rel as int, order as u8);
                        eff = mid.update(buddy as int, (blocks::TAG_FREE + order) as u8);
                        lemma_match_same(free1, eff0, mid);
                        lemma_match_push(free1, mid, buddy, order as int);
                        assert forall|i: int, o: int|
                            #[trigger] blocks::used_at(eff, i, o) <==> blocks::used_at(tags0, i, o)
                                || (i == rel && o == order) by {
                            assert(blocks::used_at(eff0, i, o) <==> blocks::used_at(tags0, i, o) || (
                            i == rel && o == order + 1));
                        }
                        assert forall|k: int| 0 <= k < 512 && k != rel implies #[trigger] self@.tags[k]
                            == eff[k] by {
                            assert(self@.tags[k] == stamp(
                                st1,
                                buddy as int,
                                order as int,
                                (blocks::TAG_FREE + order) as u8,
                            )[k]);
                            assert(st1[k] == eff0[k]);
                            if buddy < k < buddy + blocks::block_pages(order as int) {
                                assert(eff0[k] == blocks::TAG_NONE);
                            }
                        }
                    }
                }
                proof {
                    lemma_pages_of(want);
                    assert(blocks::block_ok(eff, rel as int));
                }
                self.state[rel as usize] = want as u8;
                assert(self.state@ =~= eff);
                let n = 1usize << want;
                let mut i: usize = 1;
                while i < n
                    invariant
                        1 <= i <= n,
                        n == blocks::block_pages(want as int),
                        rel + n <= 512,
                        blocks::block_ok(eff, rel as int),
                        eff[rel as int] == want,
                        want <= 9,
                        self.state@ == eff,
                        self.linked(),
                        lists_match(self@.free, eff),
                        self@.base_pfn == old(self)@.base_pfn,
                        self@.n_pages == old(self)@.n_pages,
                        self@.free == alloc_lists(free0, want as int),
                    decreases n - i,
                {
                    assert(eff[rel + i] == blocks::TAG_NONE);
                    self.state[rel as usize + i] = blocks::TAG_NONE;
                    assert(self.state@ =~= eff);
                    i = i + 1;
                }
                assert forall|i: int, o: int|
                    #[trigger] self@.used(i, o) <==> old(self)@.used(i, o) || (i == rel && o
                        == want) by {
                    assert(blocks::used_at(eff, i, o) <==> blocks::used_at(tags0, i, o) || (i == rel
                        && o == want));
                }
                return Some(rel);
            }
            order = order + 1;
        }
        None
    }

    /// Gives a block back and merges it with free buddies.
    pub fn free(&mut self, rel: u16, order: u32)
        requires
            old(self).wf(),
            old(self)@.used(rel as int, order as int),
        ensures
            final(self).wf(),
            old(self)@.regains(final(self)@, rel as int, order as int),
    {
        let ghost rel0 = rel;
        let ghost tags0 = self@.tags;
        let ghost free0 = self@.free;
        let ghost mut eff = tags0;
        let ghost order0 = order;
        let mut rel = rel;
        let mut order = order;
        assert(self@.n_pages == 512) by {
            assert(tags0[rel as int] != blocks::TAG_NONE);
        }
        while order < MAX_ORDER
            invariant
                rel < 512,
                order <= 9,
                self.linked(),
                self@.n_pages == 512,
                self@.base_pfn == old(self)@.base_pfn,
                self@.tags == tags0,
                tags0.len() == 512,
                blocks::tags_ok(eff),
                blocks::used_at(eff, rel as int, order as int),
                lists_match(self@.free, eff),
                forall|k: int|
                    0 <= k < 512 && !(rel <= k < rel + blocks::block_pages(order as int))
                        ==> #[trigger] tags0[k] == eff[k],
                free_lists(self@.free, rel as int, order as int) == free_lists(
                    free0,
                    rel0 as int,
                    order0 as int,
                ),
                forall|i: int, o: int|
                    #[trigger] blocks::used_at(eff, i, o) <==> if i == rel {
                        o == order
                    } else {
                        i != rel0 && blocks::used_at(tags0, i, o)
                    },
                rel != rel0 ==> forall|o: int| !#[trigger] blocks::used_at(tags0, rel as int, o),
            ensures
                rel < 512,
                order <= 9,
                self.linked(),
                self@.n_pages == 512,
                self@.base_pfn == old(self)@.base_pfn,
                self@.tags == tags0,
                blocks::tags_ok(eff),
                blocks::used_at(eff, rel as int, order as int),
                order < 9 ==> !blocks::free_at(
                    eff,
                    blocks::buddy_of(rel as int, order as int),
                    order as int,
                ),
                lists_match(self@.free, eff),
                forall|k: int|
                    0 <= k < 512 && !(rel <= k < rel + blocks::block_pages(order as int))
                        ==> #[trigger] tags0[k] == eff[k],
                free_lists(self@.free, rel as int, order as int) == free_lists(
                    free0,
                    rel0 as int,
                    order0 as int,
                ),
                forall|i: int, o: int|
                    #[trigger] blocks::used_at(eff, i, o) <==> if i == rel {
                        o == order
                    } else {
                        i != rel0 && blocks::used_at(tags0, i, o)
                    },
                rel != rel0 ==> forall|o: int| !#[trigger] blocks::used_at(tags0, rel as int, o),
            decreases 9 - order,
        {
            proof {
                assert(blocks::block_ok(eff, rel as int));
                blocks::lemma_buddy(rel as int, order as int);
                lemma_shift16(order);
                lemma_buddy_bits(rel, order);
                lemma_free_tag(order);
            }
            let buddy = rel ^ (1u16 << order);
            if buddy as u32 >= self.n_pages {
                break;
            }
            let st = self.state[buddy as usize];
            assert(tags0[buddy as int] == eff[buddy as int]);
            if st != (blocks::TAG_FREE | order as u8) {
                break;
            }
            let ghost free1 = self@.free;
            let ghost eff0 = eff;
            self.unlink_free(buddy, order);
            proof {
                assert(blocks::free_at(eff0, buddy as int, order as int));
                assert(free1[order as int].contains(buddy));
                let p = blocks::parent_of(rel as int, order as int);
                let q = p + blocks::block_pages(order as int);
                blocks::lemma_merge(eff0, rel as int, order as int);
                eff = eff0.update(q, blocks::TAG_NONE).update(p, (order + 1) as u8);
                lemma_match_remove(free1, eff0, eff, buddy, order as int);
                assert(forall|o: int| !blocks::used_at(eff0, buddy as int, o));
                assert forall|i: int, o: int|
                    #[trigger] blocks::used_at(eff, i, o) <==> if i == p {
                        o == order + 1
                    } else {
                        i != rel0 && blocks::used_at(tags0, i, o)
                    } by {
                    assert(blocks::used_at(eff0, i, o) <==> if i == rel {
                        o == order
                    } else {
                        i != rel0 && blocks::used_at(tags0, i, o)
                    });
                }
            }
            rel = rel & !(1u16 << order);
            order = order + 1;
        }
        proof {
            assert(blocks::block_ok(eff, rel as int));
            blocks::lemma_release(eff, rel as int, order as int);
            lemma_match_push(self@.free, eff, rel, order as int);
            if order < 9 {
                blocks::lemma_buddy(rel as int, order as int);
            }
            assert forall|o: int| 0 <= o < 10 implies !(#[trigger] self@.free[o]).contains(rel) by {
                assert(!blocks::free_at(eff, rel as int, o));
            }
        }
        self.push_free(rel, order);
        proof {
            assert(self@.tags =~= eff.update(rel as int, (blocks::TAG_FREE + order) as u8));
            assert forall|i: int, o: int|
                #[trigger] self@.used(i, o) <==> old(self)@.used(i, o) && i != rel0 by {
                assert(blocks::used_at(eff, i, o) <==> if i == rel {
                    o == order
                } else {
                    i != rel0 && blocks::used_at(tags0, i, o)
                });
            }
        }
    }
}

proof fn lemma_fresh_match()
    ensures
        lists_match(fresh_view(0).free, fresh_view(0).tags),
{
    let v = fresh_view(0);
    assert(seq![0u16][0] == 0);
    assert(seq![0u16].contains(0));
    assert forall|o: int, i: u16| #![trigger v.free[o].contains(i)] 0 <= o < 10 implies (
    v.free[o].contains(i) <==> blocks::free_at(v.tags, i as int, o)) by {}
}

/// Allocated blocks do not overlap.
pub proof fn law_blocks_disjoint(v: SpanView, i: int, o: int, j: int, p: int)
    requires
        v.wf(),
        v.used(i, o),
        v.used(j, p),
        i != j,
    ensures
        i + blocks::block_pages(o) <= j || j + blocks::block_pages(p) <= i,
        i % blocks::block_pages(o) == 0,
        i + blocks::block_pages(o) <= 512,
{
    assert(v.n_pages == 512) by {
        assert(v.tags[i] != blocks::TAG_NONE);
    }
    assert(blocks::block_ok(v.tags, i));
    assert(blocks::block_ok(v.tags, j));
    blocks::lemma_aligned_mod(i, o);
}

/// Giving back the block that was just taken restores the free lists.
pub proof fn law_free_undoes_alloc(v: SpanView, want: int)
    requires
        v.wf(),
        0 <= want,
        fit(v.free, want) < 10,
    ensures
        free_lists(
            alloc_lists(v.free, want),
            v.free[fit(v.free, want)][0] as int,
            want,
        ) == v.free,
{
    let o = fit(v.free, want);
    lemma_fit(v.free, want);
    let l = v.free[o];
    let rel = l[0];
    assert(l.contains(rel));
    assert(blocks::free_at(v.tags, rel as int, o));
    assert(v.n_pages == 512) by {
        assert(v.tags[rel as int] != blocks::TAG_NONE);
    }
    assert(blocks::block_ok(v.tags, rel as int));
    let f = v.free.update(o, l.drop_first());
    lemma_split_undone(f, rel as int, o, want);
    assert(l =~= seq![rel] + l.drop_first());
    if o < 9 {
        let b = blocks::buddy_of(rel as int, o);
        blocks::lemma_buddy(rel as int, o);
        assert(!l.contains(b as u16));
        if l.drop_first().contains(b as u16) {
            let k = choose|k: int| 0 <= k < l.drop_first().len() && l.drop_first()[k] == b as u16;
            assert(l[k + 1] == b as u16);
        }
    }
    assert(f.update(o, seq![rel] + f[o]) =~= v.free);
}

/// Two sound spans that stand for the same are equal in every field: the heads of the
/// lists, the links and the tags.
pub proof fn law_view_determines(a: Span, b: Span)
    requires
        a.wf(),
        b.wf(),
        a@ == b@,
    ensures
        a == b,
{
    assert forall|o: int| 0 <= o < 10 implies #[trigger] a.free_head@[o] == b.free_head@[o] by {
        assert(chain(a.free_head@[o], a.next@, a.lists@[o]));
        assert(chain(b.free_head@[o], b.next@, b.lists@[o]));
    }
    assert forall|i: int| 0 <= i < 512 implies #[trigger] a.next@[i] == b.next@[i] by {
        let x = i as u16;
        if listed(a.lists@, x) {
            let o = choose|o: int| 0 <= o < a.lists@.len() && #[trigger] a.lists@[o].contains(x);
            let l = a.lists@[o];
            let j = choose|j: int| 0 <= j < l.len() && l[j] == x;
            assert(chain(a.free_head@[o], a.next@, l));
            assert(chain(b.free_head@[o], b.next@, l));
            assert(a.next@[l[j] as int] == b.next@[l[j] as int]);
        } else {
            assert(a.next@[x as int] == NONE);
            assert(b.next@[x as int] == NONE);
        }
    }
    assert(a.free_head@ =~= b.free_head@);
    assert(a.next@ =~= b.next@);
    assert(a.state@ =~= b.state@);
    assert(a.free_head =~= b.free_head);
    assert(a.next =~= b.next);
    assert(a.state =~= b.state);
}

/// Giving back the block that was just taken restores the span in every field: `s` is
/// the span before, `t` after a block of order `want` was taken at `rel`, and `u` after
/// it was given back.
pub proof fn law_free_restores(s: Span, t: Span, u: Span, want: int, rel: u16)
    requires
        s.wf(),
        t.wf(),
        u.wf(),
        0 <= want,
        s@.takes(t@, want, Some(rel)),
        t@.regains(u@, rel as int, want),
    ensures
        u == s,
{
    let o = fit(s@.free, want);
    lemma_fit(s@.free, want);
    assert(s@.free[o].contains(rel));
    assert(blocks::free_at(s@.tags, rel as int, o));
    assert(s@.n_pages == 512) by {
        assert(s@.tags[rel as int] != blocks::TAG_NONE);
    }
    law_free_undoes_alloc(s@, want);
    assert forall|i: int, p: int| #[trigger] s@.used(i, p) <==> u@.used(i, p) by {
        assert(t@.used(i, p) <==> s@.used(i, p) || (i == rel && p == want));
        assert(u@.used(i, p) <==> t@.used(i, p) && i != rel);
        assert(!s@.used(rel as int, p));
    }
    lemma_determined(s@, u@);
    law_view_determines(u, s);
}

proof fn lemma_split_undone(f: Seq<Seq<u16>>, rel: int, from: int, to: int)
    requires
        f.len() == 10,
        0 <= rel < 512,
        0 <= to <= from <= 9,
        blocks::aligned(rel, from),
    ensures
        free_lists(split_lists(f, rel, from, to), rel, to) == free_lists(f, rel, from),
    decreases from,
{
    if from > to {
        let o = from - 1;
        blocks::lemma_aligned_down(rel, o);
        blocks::lemma_buddy(rel, o);
        let b = (rel + blocks::block_pages(o)) as u16;
        let g = f.update(o, seq![b] + f[o]);
        lemma_split_undone(g, rel, o, to);
        assert(g[o][0] == b);
        assert(g[o].contains(b));
        assert(g[o].index_of_first(b) == Some(0int)) by {
            g[o].index_of_first_ensures(b);
        }
        assert(g[o].remove_value(b) =~= f[o]);
        assert(g.update(o, f[o]) =~= f);
    }
}

pub proof fn lemma_fit(free: Seq<Seq<u16>>, want: int)
    requires
        0 <= want,
        fit(free, want) < 10,
    ensures
        want <= fit(free, want),
        free[fit(free, want)].len() > 0,
    decreases 10 - want,
{
    if free[want].len() == 0 {
        lemma_fit(free, want + 1);
    }
}

/// Once every block has been given back, the span is one free block again.
pub proof fn law_all_free(v: SpanView)
    requires
        v.wf(),
        v.n_pages == 512,
        forall|i: int, o: int| !#[trigger] v.used(i, o),
    ensures
        v == fresh_view(v.base_pfn),
{
    assert forall|j: int, o: int| !#[trigger] blocks::used_at(v.tags, j, o) by {
        assert(!v.used(j, o));
    }
    blocks::lemma_all_free(v.tags);
    let w = fresh_view(v.base_pfn);
    assert(v.tags =~= w.tags);
    assert forall|o: int| 0 <= o < 10 implies #[trigger] v.free[o] == w.free[o] by {
        if o == 9 {
            assert(v.free[9].contains(0));
            assert(v.free[9].len() == 1) by {
                if v.free[9].len() > 1 {
                    assert(v.free[9].contains(v.free[9][0]));
                    assert(v.free[9].contains(v.free[9][1]));
                }
            }
            assert(v.free[9].contains(v.free[9][0]));
            assert(v.free[9] =~= seq![0u16]);
        } else {
            if v.free[o].len() > 0 {
                assert(v.free[o].contains(v.free[o][0]));
            }
            assert(v.free[o] =~= Seq::<u16>::empty());
        }
    }
    assert(v.free =~= w.free);
}

/// The free lists and the allocated blocks determine a live span.
pub proof fn lemma_determined(a: SpanView, b: SpanView)
    requires
        a.wf(),
        b.wf(),
        a.n_pages == 512,
        b.n_pages == 512,
        a.base_pfn == b.base_pfn,
        a.free == b.free,
        forall|i: int, o: int| #[trigger] a.used(i, o) <==> b.used(i, o),
    ensures
        a == b,
{
    assert forall|i: int| 0 <= i < 512 implies #[trigger] a.tags[i] == b.tags[i] by {
        lemma_tag_forced(a, b, i);
        assert forall|k: int, o: int| #[trigger] b.used(k, o) <==> a.used(k, o) by {
            assert(a.used(k, o) <==> b.used(k, o));
        }
        lemma_tag_forced(b, a, i);
    }
    assert(a.tags =~= b.tags);
}

proof fn lemma_tag_forced(a: SpanView, b: SpanView, i: int)
    requires
        a.wf(),
        b.wf(),
        a.n_pages == 512,
        a.free == b.free,
        forall|k: int, o: int| #[trigger] a.used(k, o) <==> b.used(k, o),
        0 <= i < 512,
    ensures
        a.tags[i] != blocks::TAG_NONE ==> b.tags[i] == a.tags[i],
{
    if a.tags[i] != blocks::TAG_NONE {
        assert(blocks::block_ok(a.tags, i));
        let o = blocks::tag_order(a.tags[i]);
        if a.tags[i] >= blocks::TAG_FREE {
            assert(a.free[o].contains(i as u16) <==> blocks::free_at(a.tags, i, o));
            assert(b.free[o].contains(i as u16) <==> blocks::free_at(b.tags, i, o));
        } else {
            assert(a.used(i, o));
        }
    }
}

/// The lists still match when the free blocks do not change.
proof fn lemma_match_same(free: Seq<Seq<u16>>, tags: Seq<u8>, t2: Seq<u8>)
    requires
        lists_match(free, tags),
        forall|i: int, o: int| blocks::free_at(tags, i, o) <==> #[trigger] blocks::free_at(t2, i, o),
    ensures
        lists_match(free, t2),
{
}

/// Taking the first block of a list off it.
proof fn lemma_match_pop(free: Seq<Seq<u16>>, tags: Seq<u8>, o: int)
    requires
        lists_match(free, tags),
        tags.len() == 512,
        0 <= o < 10,
        free[o].len() > 0,
    ensures
        lists_match(
            free.update(o, free[o].drop_first()),
            tags.update(free[o][0] as int, o as u8),
        ),
{
    let l = free[o];
    let x = l[0];
    assert(l.contains(x));
    assert(l.remove(0) =~= l.drop_first());
    lemma_remove_at(l, x, 0);
    lemma_match_remove(free, tags, tags.update(x as int, o as u8), x, o);
}

/// Putting a block that was not free on a list.
proof fn lemma_match_push(free: Seq<Seq<u16>>, tags: Seq<u8>, x: u16, o: int)
    requires
        lists_match(free, tags),
        tags.len() == 512,
        0 <= o < 10,
        x < 512,
        forall|p: int| !#[trigger] blocks::free_at(tags, x as int, p),
    ensures
        lists_match(
            free.update(o, seq![x] + free[o]),
            tags.update(x as int, (blocks::TAG_FREE + o) as u8),
        ),
{
    let l = free[o];
    let l2 = seq![x] + l;
    let t2 = tags.update(x as int, (blocks::TAG_FREE + o) as u8);
    let free2 = free.update(o, l2);
    assert(!l.contains(x));
    assert(l2.no_duplicates()) by {
        assert forall|a: int, b: int| 0 <= a < l2.len() && 0 <= b < l2.len() && a != b implies l2[a]
            != l2[b] by {
            if a > 0 {
                assert(l.contains(l[a - 1]));
            }
            if b > 0 {
                assert(l.contains(l[b - 1]));
            }
        }
    }
    assert forall|p: int, i: u16| #![trigger free2[p].contains(i)] 0 <= p < 10 implies (
    free2[p].contains(i) <==> blocks::free_at(t2, i as int, p)) by {
        lemma_push_contains(l, x, i);
        assert(free[p].contains(i) <==> blocks::free_at(tags, i as int, p));
    }
}

/// Taking a block off its list.
proof fn lemma_match_remove(free: Seq<Seq<u16>>, tags: Seq<u8>, t2: Seq<u8>, x: u16, o: int)
    requires
        lists_match(free, tags),
        0 <= o < 10,
        free[o].contains(x),
        forall|i: int, p: int| #[trigger]
            blocks::free_at(t2, i, p) <==> blocks::free_at(tags, i, p) && i != x,
    ensures
        lists_match(free.update(o, free[o].remove_value(x)), t2),
{
    let l = free[o];
    let j = choose|j: int| 0 <= j < l.len() && l[j] == x;
    lemma_remove_at(l, x, j);
    let l2 = l.remove(j);
    let free2 = free.update(o, l2);
    assert(l2.no_duplicates()) by {
        assert forall|a: int, b: int| 0 <= a < l2.len() && 0 <= b < l2.len() && a != b implies l2[a]
            != l2[b] by {
            let aa = if a < j { a } else { a + 1 };
            let bb = if b < j { b } else { b + 1 };
            assert(l2[a] == l[aa] && l2[b] == l[bb]);
        }
    }
    assert forall|p: int, i: u16| #![trigger free2[p].contains(i)] 0 <= p < 10 implies (
    free2[p].contains(i) <==> blocks::free_at(t2, i as int, p)) by {
        assert(free[p].contains(i) <==> blocks::free_at(tags, i as int, p));
        if p == o {
            assert(l2.contains(i) <==> l.contains(i) && i != x) by {
                if l2.contains(i) {
                    let k = choose|k: int| 0 <= k < l2.len() && l2[k] == i;
                    let kk = if k < j { k } else { k + 1 };
                    assert(l[kk] == i);
                }
                if l.contains(i) && i != x {
                    let k = choose|k: int| 0 <= k < l.len() && l[k] == i;
                    let kk = if k < j { k } else { k - 1 };
                    assert(l2[kk] == i);
                }
            }
        } else if i == x {
            assert(free[o].contains(x));
            assert(blocks::free_at(tags, x as int, o));
            assert(!blocks::free_at(tags, x as int, p));
        }
    }
}

/// Taking entry `j` out of list `o` leaves the lists spelled out by the arrays.
proof fn lemma_unlink(
    head: Seq<u16>,
    next: Seq<u16>,
    lists: Seq<Seq<u16>>,
    o: int,
    j: int,
    head2: Seq<u16>,
    next2: Seq<u16>,
)
    requires
        lists.len() == 10,
        head.len() == 10,
        next.len() == 512,
        apart(lists),
        loose(next, lists),
        forall|p: int| 0 <= p < 10 ==> chain(#[trigger] head[p], next, lists[p]),
        0 <= o < 10,
        0 <= j < lists[o].len(),
        head2 == if j == 0 {
            head.update(o, next[lists[o][j] as int])
        } else {
            head
        },
        next2 == if j == 0 {
            next.update(lists[o][j] as int, NONE)
        } else {
            next.update(lists[o][j - 1] as int, next[lists[o][j] as int]).update(
                lists[o][j] as int,
                NONE,
            )
        },
    ensures
        apart(lists.update(o, lists[o].remove(j))),
        loose(next2, lists.update(o, lists[o].remove(j))),
        forall|p: int|
            0 <= p < 10 ==> chain(
                #[trigger] head2[p],
                next2,
                lists.update(o, lists[o].remove(j))[p],
            ),
{
    let l = lists[o];
    let m = l.remove(j);
    let lists2 = lists.update(o, m);
    assert(chain(head[o], next, l));
    assert(l[j] < 512);
    if j > 0 {
        assert(l[j - 1] < 512);
    }
    assert forall|k: int| 0 <= k < m.len() implies #[trigger] m[k] == l[if k < j {
        k
    } else {
        k + 1
    }] by {}
    assert forall|p: int| 0 <= p < 10 implies chain(#[trigger] head2[p], next2, lists2[p]) by {
        assert(chain(head[p], next, lists[p]));
        if p == o {
            lemma_unlink_chain(head[o], next, l, j, head2[o], next2);
        } else {
            assert forall|k: int| #![trigger lists[p][k]] 0 <= k < lists[p].len() implies next2[lists[p][k] as int]
                == next[lists[p][k] as int] by {
                assert(lists[p].contains(lists[p][k]));
                assert(lists[o].contains(l[j]));
                if j > 0 {
                    assert(lists[o].contains(l[j - 1]));
                }
            }
        }
    }
    assert forall|a: int, b: int, x: u16|
        0 <= a < 10 && 0 <= b < 10 && a != b && #[trigger] lists2[a].contains(
            x,
        ) implies !#[trigger] lists2[b].contains(x) by {
        if lists2[b].contains(x) {
            let ka = choose|k: int| 0 <= k < lists2[a].len() && lists2[a][k] == x;
            let kb = choose|k: int| 0 <= k < lists2[b].len() && lists2[b][k] == x;
            assert(lists[a].contains(x)) by {
                assert(lists[a][if a == o && ka >= j { ka + 1 } else { ka }] == x);
            }
            assert(lists[b].contains(x)) by {
                assert(lists[b][if b == o && kb >= j { kb + 1 } else { kb }] == x);
            }
        }
    }
    assert forall|x: u16| x < 512 && !listed(lists2, x) implies #[trigger] next2[x as int]
        == NONE by {
        assert(!lists2[o].contains(x));
        if x != l[j] {
            assert(!listed(lists, x)) by {
                if listed(lists, x) {
                    let p = choose|p: int| 0 <= p < lists.len() && #[trigger] lists[p].contains(x);
                    if p == o {
                        let k = choose|k: int| 0 <= k < l.len() && l[k] == x;
                        assert(m[if k < j { k } else { k - 1 }] == x);
                    } else {
                        assert(lists2[p].contains(x));
                    }
                }
            }
            assert(next[x as int] == NONE);
            if j > 0 {
                assert(m[j - 1] == l[j - 1]);
            }
        }
    }
}

/// [`lemma_unlink`] for the list that loses an entry.
proof fn lemma_unlink_chain(
    head: u16,
    next: Seq<u16>,
    l: Seq<u16>,
    j: int,
    head2: u16,
    next2: Seq<u16>,
)
    requires
        next.len() == 512,
        chain(head, next, l),
        0 <= j < l.len(),
        head2 == if j == 0 {
            next[l[j] as int]
        } else {
            head
        },
        next2 == if j == 0 {
            next.update(l[j] as int, NONE)
        } else {
            next.update(l[j - 1] as int, next[l[j] as int]).update(l[j] as int, NONE)
        },
    ensures
        chain(head2, next2, l.remove(j)),
{
    let m = l.remove(j);
    assert(l[j] < 512);
    if j > 0 {
        assert(l[j - 1] < 512);
    }
    if j == 0 {
        if l.len() > 1 {
            assert(m[0] == l[1]);
        }
    } else {
        assert(m[0] == l[0]);
    }
    assert forall|k: int| #![trigger m[k]] 0 <= k < m.len() implies m[k] < 512 && next2[m[k] as int]
        == if k + 1 < m.len() {
        m[k + 1]
    } else {
        NONE
    } by {
        if k < j - 1 {
            assert(m[k] == l[k] && m[k + 1] == l[k + 1]);
            assert(l[k] != l[j] && l[k] != l[j - 1]);
        } else if k == j - 1 {
            assert(m[k] == l[k]);
            if j + 1 < l.len() {
                assert(m[k + 1] == l[j + 1]);
            }
        } else {
            assert(m[k] == l[k + 1]);
            assert(l[k + 1] != l[j]);
            if j > 0 {
                assert(l[k + 1] != l[j - 1]);
            }
            if k + 1 < m.len() {
                assert(m[k + 1] == l[k + 2]);
            }
        }
    }
    assert forall|a: int, b: int| 0 <= a < m.len() && 0 <= b < m.len() && a != b implies m[a]
        != m[b] by {
        let aa = if a < j { a } else { a + 1 };
        let bb = if b < j { b } else { b + 1 };
        assert(m[a] == l[aa] && m[b] == l[bb]);
    }
}

proof fn lemma_remove_at(l: Seq<u16>, x: u16, j: int)
    requires
        0 <= j < l.len(),
        l[j] == x,
        l.no_duplicates(),
    ensures
        l.remove_value(x) == l.remove(j),
{
    l.index_of_first_ensures(x);
}

proof fn lemma_push_contains(l: Seq<u16>, y: u16, x: u16)
    ensures
        (seq![y] + l).contains(x) <==> x == y || l.contains(x),
{
    let m = seq![y] + l;
    assert(m[0] == y);
    if l.contains(x) {
        let j = choose|j: int| 0 <= j < l.len() && l[j] == x;
        assert(m[j + 1] == x);
    }
    if m.contains(x) && x != y {
        let j = choose|j: int| 0 <= j < m.len() && m[j] == x;
        assert(l[j - 1] == x);
    }
}

/// A block can be had exactly if some block is free that is at least as large. It is
/// the first of the smallest such order, halved as often as need be: each upper half is
/// free in its order, and no other list changes.
pub proof fn law_smallest_taken(v: SpanView, w: SpanView, want: int, r: Option<u16>)
    requires
        v.wf(),
        0 <= want,
        v.takes(w, want, r),
    ensures
        r is None <==> forall|o: int| want <= o <= 9 ==> #[trigger] v.free[o].len() == 0,
        r is None ==> w == v,
        r matches Some(rel) ==> exists|o: int|
            {
                &&& want <= o <= 9
                &&& #[trigger] v.free[o].len() > 0
                &&& v.free[o][0] == rel
                &&& w.free[o] == v.free[o].drop_first()
                &&& forall|p: int| want <= p < o ==> #[trigger] v.free[p].len() == 0
                &&& forall|p: int|
                    want <= p < o ==> #[trigger] w.free[p] == seq![
                        (rel + blocks::block_pages(p)) as u16,
                    ]
                &&& forall|p: int| 0 <= p < want || o < p <= 9 ==> #[trigger] w.free[p] == v.free[p]
            },
{
    lemma_fit_least(v.free, want);
    if let Some(rel) = r {
        let o = fit(v.free, want);
        let f = v.free.update(o, v.free[o].drop_first());
        lemma_split_shape(f, rel as int, o, want);
        assert forall|p: int| want <= p < o implies #[trigger] w.free[p] == seq![
            (rel + blocks::block_pages(p)) as u16,
        ] by {
            assert(v.free[p].len() == 0);
            assert(f[p] =~= Seq::<u16>::empty());
            assert(w.free[p] =~= seq![(rel + blocks::block_pages(p)) as u16]);
        }
        assert(v.free[o].len() > 0);
    }
}

pub proof fn lemma_fit_least(free: Seq<Seq<u16>>, want: int)
    requires
        0 <= want,
    ensures
        fit(free, want) >= 10 <==> forall|o: int| want <= o <= 9 ==> #[trigger] free[o].len() == 0,
        fit(free, want) < 10 ==> want <= fit(free, want) && free[fit(free, want)].len() > 0,
        forall|o: int| want <= o <= 9 && o < fit(free, want) ==> #[trigger] free[o].len() == 0,
    decreases 10 - want,
{
    if want < 10 && free[want].len() == 0 {
        lemma_fit_least(free, want + 1);
    }
}

proof fn lemma_split_shape(f: Seq<Seq<u16>>, rel: int, from: int, to: int)
    requires
        f.len() == 10,
        0 <= to <= from <= 9,
    ensures
        ({
            let g = split_lists(f, rel, from, to);
            &&& g.len() == 10
            &&& forall|p: int|
                0 <= p < 10 ==> #[trigger] g[p] == if to <= p < from {
                    seq![(rel + blocks::block_pages(p)) as u16] + f[p]
                } else {
                    f[p]
                }
        }),
    decreases from,
{
    if from > to {
        let o = from - 1;
        let h = f.update(o, seq![(rel + blocks::block_pages(o)) as u16] + f[o]);
        lemma_split_shape(h, rel, o, to);
        assert forall|p: int| 0 <= p < 10 implies #[trigger] split_lists(f, rel, from, to)[p] == (
        if to <= p < from {
            seq![(rel + blocks::block_pages(p)) as u16] + f[p]
        } else {
            f[p]
        }) by {
            assert(split_lists(h, rel, o, to)[p] == if to <= p < o {
                seq![(rel + blocks::block_pages(p)) as u16] + h[p]
            } else {
                h[p]
            });
        }
    }
}

/// Blocks double in size from one order to the next.
pub proof fn law_block_pages(o: int)
    requires
        0 <= o < 9,
    ensures
        blocks::block_pages(0) == 1,
        blocks::block_pages(o + 1) == 2 * blocks::block_pages(o),
{
}

/// Of the two halves of a block, not both are free on their own: what can be merged is.
pub proof fn law_merged(v: SpanView, o: int, b: int)
    requires
        v.wf(),
        0 <= o < 9,
        0 <= b,
        b + 2 * blocks::block_pages(o) <= 512,
        b % (2 * blocks::block_pages(o)) == 0,
    ensures
        !(v.free[o].contains(b as u16) && v.free[o].contains(
            (b + blocks::block_pages(o)) as u16,
        )),
{
    blocks::lemma_aligned_mod(b, o + 1);
    let x = b as u16;
    let y = (b + blocks::block_pages(o)) as u16;
    if v.free[o].contains(x) && v.free[o].contains(y) {
        assert(blocks::free_at(v.tags, x as int, o));
        assert(blocks::free_at(v.tags, y as int, o));
        assert(v.n_pages == 512) by {
            assert(v.tags[x as int] != blocks::TAG_NONE);
        }
    }
}

/// Giving back a block makes it free: no allocated block holds any of its pages.
pub proof fn law_regained(v: SpanView, w: SpanView, rel: int, order: int, i: int, o: int)
    requires
        v.wf(),
        v.used(rel, order),
        v.regains(w, rel, order),
        w.used(i, o),
    ensures
        v.used(i, o),
        i + blocks::block_pages(o) <= rel || rel + blocks::block_pages(order) <= i,
{
    assert(w.used(i, o) <==> v.used(i, o) && i != rel);
    law_blocks_disjoint(v, rel, order, i, o);
}

/// `new` is `free` with one more block at the front of list `n`, the block at `rel` if that
/// is its own list, and one block less on each list from `order` up to that.
pub open spec fn one_in_front(
    free: Seq<Seq<u16>>,
    new: Seq<Seq<u16>>,
    rel: int,
    order: int,
    n: int,
) -> bool {
    &&& order <= n <= 9
    &&& new[n].len() == free[n].len() + 1
    &&& new[n].drop_first() == free[n]
    &&& n == order ==> new[n][0] == rel as u16
    &&& forall|p: int| order <= p < n ==> (#[trigger] new[p]).len() == free[p].len() - 1
    &&& forall|p: int| 0 <= p < order || n < p <= 9 ==> #[trigger] new[p] == free[p]
}

/// Giving back a block puts one block at the front of one list, of its order or above.
/// Each list between loses the one block that merged, and every other list is as it was.
pub proof fn law_front_of_list(free: Seq<Seq<u16>>, rel: int, order: int)
    requires
        free.len() == 10,
        0 <= order <= 9,
    ensures
        exists|n: int| #[trigger] one_in_front(free, free_lists(free, rel, order), rel, order, n),
    decreases 9 - order,
{
    let new = free_lists(free, rel, order);
    let b = blocks::buddy_of(rel, order) as u16;
    if order < 9 && free[order].contains(b) {
        let rest = free.update(order, free[order].remove_value(b));
        law_front_of_list(rest, blocks::parent_of(rel, order), order + 1);
        let up = blocks::parent_of(rel, order);
        let n = choose|n: int| #[trigger] one_in_front(rest, new, up, order + 1, n);
        free[order].index_of_first_ensures(b);
        assert(new[order] == rest[order]);
        assert(rest[order].len() == free[order].len() - 1);
        assert(one_in_front(free, new, rel, order, n));
    } else {
        assert(new[order].drop_first() =~= free[order]);
        assert(one_in_front(free, new, rel, order, order));
    }
}

} // verus!
