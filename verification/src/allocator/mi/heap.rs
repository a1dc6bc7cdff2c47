//! Per-CPU heaps of size-class pages.

use vstd::prelude::*;
use crate::allocator::mi::meta::{MetaArena, MetaView, META_ORDER};
use crate::allocator::mi::os;
use crate::allocator::mi::page;
use crate::allocator::mi::page::{create_order, next_key, Folio, MiPage, PageView};
use crate::allocator::request::Flags;

verus! {

/// Number of heaps.
pub const HEAP_COUNT: usize = 64;

/// Number of size classes, with a sentinel behind the last.
pub const BIN_COUNT: usize = 16;

/// Block size of each size class; 0 behind the last.
pub const BINS: [u32; 16] = [
    8,
    16,
    24,
    32,
    48,
    64,
    96,
    128,
    192,
    256,
    512,
    1024,
    2048,
    4096,
    8192,
    0,
];

/// Block size of size class `bin`.
pub fn bin_size(bin: usize) -> (r: u32)
    requires
        bin < BIN_COUNT,
    ensures
        r == BINS@[bin as int],
{
    BINS[bin]
}

/// First size class from `i` on with blocks of at least `need` bytes that are a
/// multiple of `align`, or [`BIN_COUNT`].
pub open spec fn bin_from(need: int, align: int, i: int) -> int
    decreases 16 - i,
{
    if i < 0 || i >= 15 {
        16
    } else if BINS@[i] >= need && BINS@[i] as int % align == 0 {
        i
    } else {
        bin_from(need, align, i + 1)
    }
}

/// Bytes that a block for `size` bytes aligned to `align` has at least.
pub open spec fn block_need(size: u64, align: u64) -> u64 {
    let m = if size < align {
        align
    } else {
        size
    };
    if m < 8 {
        8
    } else {
        m
    }
}

/// Size class for `size` bytes aligned to `align`, with pages of `1 << shift` bytes;
/// `None` if there is none.
pub open spec fn bin_of(shift: u32, size: u64, align: u64) -> Option<usize> {
    let need = block_need(size, align);
    let i = bin_from(
        need as int,
        if align == 0 {
            1
        } else {
            align as int
        },
        0,
    );
    if need > 2 * os::folio_bytes(shift, 0) || i >= 15 {
        None
    } else {
        Some(i as usize)
    }
}

pub proof fn lemma_bin_from(need: int, align: int, i: int)
    requires
        0 <= i,
    ensures
        ({
            let b = bin_from(need, align, i);
            &&& b == 16 || (i <= b < 15 && BINS@[b] >= need && BINS@[b] as int % align == 0)
        }),
    decreases 16 - i,
{
    if i < 15 && !(BINS@[i] >= need && BINS@[i] as int % align == 0) {
        lemma_bin_from(need, align, i + 1);
    }
}

/// Size class for `size` bytes aligned to `align`, with pages of `1 << shift` bytes.
pub fn bin_for_size(shift: u32, size: u64, align: u64) -> (r: Option<usize>)
    requires
        os::is_page_shift(shift),
    ensures
        r == bin_of(shift, size, align),
        r matches Some(b) ==> b < 15 && BINS@[b as int] >= size && BINS@[b as int] >= 8,
{
    let mut need = size;
    if need < align {
        need = align;
    }
    if need < 8 {
        need = 8;
    }
    let max_cache = os::page_size_bytes(shift, 0) * 2;
    if need > max_cache {
        return None;
    }
    let by: u64 = if align == 0 {
        1
    } else {
        align
    };
    let mut i: usize = 0;
    while i < BIN_COUNT
        invariant
            i <= 15,
            by > 0,
            bin_from(need as int, by as int, 0) == bin_from(need as int, by as int, i as int),
            need == block_need(size, align),
            need <= 2 * os::folio_bytes(shift, 0),
            by == if align == 0 {
                1
            } else {
                align
            },
        ensures
            bin_from(need as int, by as int, 0) == 16,
        decreases 16 - i,
    {
        let b = BINS[i];
        if b == 0 {
            assert(i == 15) by {
                lemma_bins_positive(i as int);
            }
            break;
        }
        if b as u64 >= need && b as u64 % by == 0 {
            assert(i < 15);
            return Some(i);
        }
        assert(i < 15);
        i = i + 1;
    }
    None
}

proof fn lemma_bins_positive(i: int)
    requires
        0 <= i < 16,
    ensures
        i < 15 ==> 8 <= BINS@[i] <= 8192,
        i == 15 ==> BINS@[i] == 0,
{
}

/// Smallest doubling of `p` that is at least `x`.
pub open spec fn doubled(p: int, x: int) -> int
    decreases
            (if p < x {
                x - p
            } else {
                0
            }),
{
    if p <= 0 || p >= x {
        p
    } else {
        doubled(2 * p, x)
    }
}

/// Smallest power of two that is at least `x`.
pub fn next_power_of_two(x: u64) -> (r: u64)
    requires
        x <= 0x8000_0000_0000_0000,
    ensures
        r == doubled(1, x as int),
        r >= x,
        r >= 1,
        r <= 0x8000_0000_0000_0000,
{
    let mut p: u64 = 1;
    let ghost mut k: nat = 0;
    proof {
        vstd::arithmetic::power2::lemma2_to64();
    }
    while p < x
        invariant
            x <= 0x8000_0000_0000_0000,
            1 <= p,
            p == vstd::arithmetic::power2::pow2(k),
            k <= 63,
            p <= 0x8000_0000_0000_0000,
            doubled(1, x as int) == doubled(p as int, x as int),
        decreases
                (if p < x {
                    x - p
                } else {
                    0
                }),
    {
        proof {
            vstd::arithmetic::power2::lemma_pow2_unfold(k + 1);
            vstd::arithmetic::power2::lemma2_to64_rest();
            assert(k < 63) by {
                if k == 63 {
                    assert(p == 0x8000_0000_0000_0000);
                }
            }
            if k + 1 < 63 {
                vstd::arithmetic::power2::lemma_pow2_strictly_increases(k + 1, 63);
            }
        }
        p = p * 2;
        proof {
            k = k + 1;
        }
    }
    p
}

/// The pages of one size class on one heap.
struct Bin {
    current: Option<usize>,
    list: Vec<usize>,
}

/// All heaps, and the pages that exist.
pub struct Mi {
    page_shift: u32,
    bins: Vec<Bin>,
    pages: Vec<MiPage>,
    meta: MetaArena,
    key_seq: u64,
}

/// What the pages of one size class on one heap are.
#[verifier::ext_equal]
pub struct BinView {
    /// The page to try first.
    pub current: Option<int>,
    /// The pages, newest last.
    pub list: Seq<int>,
}

/// What a [`Mi`] stands for.
#[verifier::ext_equal]
pub struct MiView {
    /// Pages of the machine have `1 << page_shift` bytes.
    pub page_shift: u32,
    /// For each heap and size class, the pages; see [`slot_of`].
    pub bins: Seq<BinView>,
    /// The pages, in the order in which they came into use.
    pub pages: Seq<PageView>,
    /// Memory for descriptors.
    pub meta: MetaView,
    /// Running number that goes into keys.
    pub key_seq: u64,
}

/// Where the pages of size class `bin` on the heap of `cpu` are.
pub open spec fn slot_of(cpu: u64, bin: usize) -> int {
    (cpu % 64) * 16 + bin
}

/// A block is free, collected or not.
pub open spec fn has_free(p: PageView) -> bool {
    p.local.len() + p.thread.len() > 0
}

/// The newest of the first `n` pages of `list` with a free block.
pub open spec fn newest(pages: Seq<PageView>, list: Seq<int>, n: int) -> Option<int>
    decreases n,
{
    if n <= 0 {
        None
    } else if has_free(pages[list[n - 1]]) {
        Some(list[n - 1])
    } else {
        newest(pages, list, n - 1)
    }
}

/// First page from `from` on that holds `addr`, or the number of pages.
pub open spec fn page_of(pages: Seq<PageView>, addr: u64, from: int) -> int
    decreases pages.len() - from,
{
    if from < 0 || from >= pages.len() || pages[from].contains(addr) {
        from
    } else {
        page_of(pages, addr, from + 1)
    }
}

/// `b` is `a` with its first free block, at `addr`, taken.
pub open spec fn block_taken(a: PageView, b: PageView, addr: u64) -> bool {
    &&& addr == a.collected(a.mem).local[0]
    &&& b == a.popped(b.mem)
    &&& b.wf()
    &&& b.allocated(addr)
    &&& addr != 0
    &&& a.kept_by(b)
    &&& b.block_size >= 16 ==> b.canary(addr) == page::ALLOC_CANARY
}

impl MiView {
    /// Heaps without pages, with descriptors from the chunk at `boot`.
    pub open spec fn fresh(page_shift: u32, boot: u64) -> MiView {
        MiView {
            page_shift,
            bins: Seq::new(1024, |i: int| BinView { current: None, list: Seq::empty() }),
            pages: Seq::empty(),
            meta: MetaView { bump: boot, end: (boot + 65536) as u64, free: Seq::empty() },
            key_seq: 0x9E37_79B9,
        }
    }

    /// The pages are sound, and those of a size class have its block size.
    pub open spec fn wf(self) -> bool {
        &&& os::is_page_shift(self.page_shift)
        &&& self.bins.len() == 1024
        &&& self.meta.wf()
        &&& forall|k: int| 0 <= k < self.pages.len() ==> self.page_ok(#[trigger] self.pages[k])
        &&& forall|s: int| 0 <= s < 1024 ==> #[trigger] self.bin_ok(s)
    }

    /// `p` is sound and in pages of the machine.
    pub open spec fn page_ok(self, p: PageView) -> bool {
        p.wf() && p.page_shift == self.page_shift
    }

    pub open spec fn bin_ok(self, s: int) -> bool {
        &&& forall|i: int|
            0 <= i < self.bins[s].list.len() ==> self.in_class(#[trigger] self.bins[s].list[i], s)
        &&& self.bins[s].current matches Some(k) ==> self.in_class(k, s)
    }

    /// Page `k` has blocks of the size class of `s`.
    pub open spec fn in_class(self, k: int, s: int) -> bool {
        0 <= k < self.pages.len() && self.pages[k].block_size == BINS@[s % 16]
    }

    /// No address belongs to two pages.
    pub open spec fn apart(self) -> bool {
        forall|i: int, j: int, x: u64|
            0 <= i < self.pages.len() && 0 <= j < self.pages.len()
                && #[trigger] self.pages[i].contains(x) && #[trigger] self.pages[j].contains(x)
                ==> i == j
    }

    /// The page that serves `s`: the current one if it has a free block, else the
    /// newest that has.
    pub open spec fn pick(self, s: int) -> Option<int> {
        let b = self.bins[s];
        match b.current {
            Some(k) if has_free(self.pages[k]) => Some(k),
            _ => newest(self.pages, b.list, b.list.len() as int),
        }
    }

    /// `w` is this with a block of page `k`, at `addr`, taken for `s`.
    pub open spec fn takes(self, w: MiView, s: int, k: int, addr: u64) -> bool {
        &&& w == (MiView {
            pages: self.pages.update(k, w.pages[k]),
            bins: self.bins.update(s, BinView { current: Some(k), ..self.bins[s] }),
            ..self
        })
        &&& block_taken(self.pages[k], w.pages[k], addr)
    }

    /// This with page `p` as the newest and current one of `s`.
    pub open spec fn linked(self, p: PageView, s: int) -> MiView {
        let k = self.pages.len() as int;
        MiView {
            pages: self.pages.push(p),
            bins: self.bins.update(
                s,
                BinView { current: Some(k), list: self.bins[s].list.push(k) },
            ),
            ..self
        }
    }
}

impl View for Mi {
    type V = MiView;

    closed spec fn view(&self) -> MiView {
        MiView {
            page_shift: self.page_shift,
            bins: Seq::new(
                self.bins@.len(),
                |i: int|
                    BinView {
                        current: match self.bins@[i].current {
                            Some(k) => Some(k as int),
                            None => None,
                        },
                        list: Seq::new(
                            self.bins@[i].list@.len(),
                            |j: int| self.bins@[i].list@[j] as int,
                        ),
                    },
            ),
            pages: Seq::new(self.pages@.len(), |k: int| self.pages@[k]@),
            meta: self.meta@,
            key_seq: self.key_seq,
        }
    }
}

impl Mi {
    /// The heaps are sound.
    pub closed spec fn wf(&self) -> bool {
        &&& self@.wf()
        &&& forall|k: int| 0 <= k < self.pages@.len() ==> (#[trigger] self.pages@[k]).wf()
    }

    pub proof fn lemma_wf(&self)
        requires
            self.wf(),
        ensures
            self@.wf(),
    {
    }

    /// Empty heaps on a machine with pages of `1 << page_shift` bytes, with descriptors
    /// from the chunk at `boot`.
    pub fn new(page_shift: u32, boot: u64) -> (r: Mi)
        requires
            os::is_page_shift(page_shift),
            boot > 0,
            boot + 65536 <= u64::MAX,
        ensures
            r.wf(),
            r@ == MiView::fresh(page_shift, boot),
    {
        let mut bins: Vec<Bin> = Vec::new();
        let mut i: usize = 0;
        while i < HEAP_COUNT * BIN_COUNT
            invariant
                i <= 1024,
                bins@.len() == i,
                forall|j: int|
                    0 <= j < i ==> (#[trigger] bins@[j]).current is None && bins@[j].list@.len()
                        == 0,
            decreases 1024 - i,
        {
            bins.push(Bin { current: None, list: Vec::new() });
            i = i + 1;
        }
        let r = Mi {
            page_shift,
            bins,
            pages: Vec::new(),
            meta: MetaArena::new(boot),
            key_seq: 0x9E37_79B9,
        };
        proof {
            let empty = BinView { current: None, list: Seq::<int>::empty() };
            assert forall|j: int| 0 <= j < 1024 implies #[trigger] r@.bins[j] == empty by {
                assert(r.bins@[j].list@.len() == 0);
                assert(r@.bins[j].list =~= Seq::<int>::empty());
            }
            assert(r@.bins =~= Seq::new(
                1024,
                |i: int| BinView { current: None, list: Seq::empty() },
            ));
            assert forall|j: int| 0 <= j < 1024 implies #[trigger] r@.bin_ok(j) by {
                assert(r@.bins[j] == empty);
            }
            assert(r@ =~= MiView::fresh(page_shift, boot));
        }
        r
    }

    /// Index of the page that holds `ptr`.
    fn from_ptr(&self, ptr: u64) -> (r: Option<usize>)
        requires
            self.wf(),
        ensures
            r is Some <==> page_of(self@.pages, ptr, 0) < self@.pages.len(),
            r matches Some(k) ==> k == page_of(self@.pages, ptr, 0) && k < self.pages@.len()
                && self@.pages[k as int].contains(ptr),
    {
        let mut k: usize = 0;
        while k < self.pages.len()
            invariant
                self.wf(),
                k <= self.pages@.len(),
                page_of(self@.pages, ptr, 0) == page_of(self@.pages, ptr, k as int),
            decreases self.pages@.len() - k,
        {
            assert(self@.pages[k as int] == self.pages@[k as int]@);
            if self.pages[k].contains(ptr) {
                return Some(k);
            }
            k = k + 1;
        }
        None
    }

    /// Rebuilds the view after page `k` changed.
    proof fn lemma_page_changed(&self, before: &Mi, k: int)
        requires
            before.wf(),
            0 <= k < before.pages@.len(),
            self.pages@ == before.pages@.update(k, self.pages@[k]),
            self.bins == before.bins,
            self.meta == before.meta,
            self.key_seq == before.key_seq,
            self.page_shift == before.page_shift,
            self.pages@[k].wf(),
            self.pages@[k]@.block_size == before.pages@[k]@.block_size,
            self.pages@[k]@.page_shift == before.pages@[k]@.page_shift,
        ensures
            self.wf(),
            self@ == (MiView {
                pages: before@.pages.update(k, self.pages@[k]@),
                ..before@
            }),
    {
        self.pages@[k].lemma_wf();
        assert(self@.pages =~= before@.pages.update(k, self.pages@[k]@));
        assert(self@.bins =~= before@.bins);
        assert forall|j: int| 0 <= j < self@.pages.len() implies self@.page_ok(
            #[trigger] self@.pages[j],
        ) by {
            if j != k {
                assert(self@.pages[j] == before@.pages[j]);
            }
        }
        assert forall|s: int| 0 <= s < 1024 implies #[trigger] self@.bin_ok(s) by {
            assert(before@.bin_ok(s));
            assert forall|i: int| 0 <= i < self@.bins[s].list.len() implies self@.in_class(
                #[trigger] self@.bins[s].list[i],
                s,
            ) by {
                assert(before@.in_class(before@.bins[s].list[i], s));
            }
        }
    }

    /// Rebuilds the view after bin `s` has another current page.
    proof fn lemma_current_changed(&self, before: &Mi, s: int, k: usize)
        requires
            before.wf(),
            0 <= s < 1024,
            before@.in_class(k as int, s),
            self.pages == before.pages,
            self.meta == before.meta,
            self.key_seq == before.key_seq,
            self.page_shift == before.page_shift,
            self.bins@ == before.bins@.update(s, self.bins@[s]),
            self.bins@[s].list == before.bins@[s].list,
            self.bins@[s].current == Some(k),
        ensures
            self.wf(),
            self@ == (MiView {
                bins: before@.bins.update(s, BinView { current: Some(k as int), ..before@.bins[s] }),
                ..before@
            }),
    {
        assert(self@.pages =~= before@.pages);
        assert forall|j: int| 0 <= j < 1024 implies #[trigger] self@.bins[j] == (if j == s {
            BinView { current: Some(k as int), ..before@.bins[s] }
        } else {
            before@.bins[j]
        }) by {
            if j != s {
                assert(self.bins@[j] == before.bins@[j]);
            }
            assert(self@.bins[j].list =~= before@.bins[j].list);
        }
        assert(self@.bins =~= before@.bins.update(
            s,
            BinView { current: Some(k as int), ..before@.bins[s] },
        ));
        assert forall|j: int| 0 <= j < 1024 implies #[trigger] self@.bin_ok(j) by {
            assert(before@.bin_ok(j));
            assert(self@.bins[j].list == before@.bins[j].list);
            assert forall|i: int| 0 <= i < self@.bins[j].list.len() implies self@.in_class(
                #[trigger] self@.bins[j].list[i],
                j,
            ) by {
                assert(before@.in_class(before@.bins[j].list[i], j));
            }
            if j != s {
                assert(self@.bins[j] == before@.bins[j]);
            }
        }
    }
}

impl MiView {
    proof fn lemma_newest(pages: Seq<PageView>, list: Seq<int>, n: int)
        requires
            0 <= n <= list.len(),
        ensures
            newest(pages, list, n) matches Some(k) ==> has_free(pages[k]) && exists|i: int|
                0 <= i < n && #[trigger] list[i] == k,
        decreases n,
    {
        if n > 0 && !has_free(pages[list[n - 1]]) {
            Self::lemma_newest(pages, list, n - 1);
        }
    }
}

impl Mi {
    /// The newest page of bin `s` with a free block, collected.
    fn find_page(&mut self, s: usize) -> (r: Option<usize>)
        requires
            old(self).wf(),
            s < 1024,
        ensures
            final(self).wf(),
            ({
                let v = old(self)@;
                let l = v.bins[s as int].list;
                match newest(v.pages, l, l.len() as int) {
                    Some(k) => {
                        let w = final(self)@;
                        &&& r matches Some(f) && f == k
                        &&& w == (MiView { pages: v.pages.update(k, w.pages[k]), ..v })
                        &&& w.pages[k] == v.pages[k].collected(w.pages[k].mem)
                        &&& v.pages[k].kept_by(w.pages[k])
                    },
                    None => r is None && final(self)@ == v,
                }
            }),
            r matches Some(f) ==> f < final(self).pages@.len(),
    {
        let ghost v = self@;
        let ghost l = v.bins[s as int].list;
        let mut n = self.bins[s].list.len();
        while n > 0
            invariant
                self.wf(),
                s < 1024,
                self@ == v,
                v == old(self)@,
                l == v.bins[s as int].list,
                n <= l.len(),
                newest(v.pages, l, l.len() as int) == newest(v.pages, l, n as int),
            decreases n,
        {
            n = n - 1;
            proof {
                assert(self@.bin_ok(s as int));
                assert(self@.in_class(self@.bins[s as int].list[n as int], s as int));
            }
            let cur = self.bins[s].list[n];
            let ghost before = *self;
            assert(cur == l[n as int]);
            assert(v.pages[cur as int] == self.pages@[cur as int]@);
            self.pages[cur].collect();
            proof {
                self.lemma_page_changed(&before, cur as int);
            }
            if self.pages[cur].has_local() {
                assert(self@.pages[cur as int].local.len() > 0);
                return Some(cur);
            }
            proof {
                assert(v.pages[cur as int].thread.len() == 0) by {
                    let a = v.pages[cur as int];
                    assert((a.thread.reverse() + a.local).len() == 0);
                }
                assert(self@.pages =~= v.pages);
            }
        }
        None
    }

    /// Takes a block from the current page of bin `s`, or the newest that has one.
    fn try_bin(&mut self, s: usize) -> (r: u64)
        requires
            old(self).wf(),
            s < 1024,
        ensures
            final(self).wf(),
            match old(self)@.pick(s as int) {
                Some(k) => old(self)@.takes(final(self)@, s as int, k, r),
                None => r == 0 && final(self)@ == old(self)@,
            },
            old(self)@.pick(s as int) matches Some(k) ==> old(self)@.in_class(k, s as int)
                && has_free(old(self)@.pages[k]),
    {
        let ghost v = self@;
        assert(v.bin_ok(s as int));
        if let Some(cur) = self.bins[s].current {
            let ghost before = *self;
            assert(v.bins[s as int].current == Some(cur as int));
            assert(v.in_class(cur as int, s as int));
            assert(v.pages[cur as int] == self.pages@[cur as int]@);
            let p = self.pages[cur].pop();
            proof {
                self.lemma_page_changed(&before, cur as int);
            }
            if p != 0 {
                proof {
                    self.pages@[cur as int].lemma_wf();
                    assert(v.bins.update(
                        s as int,
                        BinView { current: Some(cur as int), ..v.bins[s as int] },
                    ) =~= v.bins);
                }
                return p;
            }
            assert(self@.pages =~= v.pages);
        }
        let ghost l = v.bins[s as int].list;
        proof {
            MiView::lemma_newest(v.pages, l, l.len() as int);
            if let Some(k) = newest(v.pages, l, l.len() as int) {
                let i = choose|i: int| 0 <= i < l.len() && #[trigger] l[i] == k;
                assert(v.in_class(v.bins[s as int].list[i], s as int));
            }
        }
        if let Some(k) = self.find_page(s) {
            let ghost v1 = self@;
            let ghost before = *self;
            let ghost a = v.pages[k as int];
            assert(has_free(a));
            self.bins[s].current = Some(k);
            proof {
                self.lemma_current_changed(&before, s as int, k);
            }
            let ghost before2 = *self;
            assert(self@.pages[k as int] == self.pages@[k as int]@);
            let p = self.pages[k].pop();
            proof {
                self.lemma_page_changed(&before2, k as int);
                let b = self@.pages[k as int];
                let c = v1.pages[k as int];
                assert(c.thread.reverse() + c.local =~= c.local);
                assert(c.local == a.thread.reverse() + a.local);
                assert(b =~= a.popped(b.mem));
                assert(a.kept_by(b)) by {
                    assert forall|addr: u64| #[trigger] a.allocated(addr) implies page::same_block(
                        b,
                        a,
                        addr,
                    ) by {
                        a.lemma_collected_allocated(c.mem, addr);
                        assert(c.allocated(addr));
                    }
                }
                self.pages@[k as int].lemma_wf();
                assert(self@.pages =~= v.pages.update(k as int, b));
                assert(self@ =~= MiView {
                    pages: v.pages.update(k as int, b),
                    bins: v.bins.update(
                        s as int,
                        BinView { current: Some(k as int), ..v.bins[s as int] },
                    ),
                    ..v
                });
            }
            if p != 0 {
                return p;
            }
        }
        0
    }
}

/// A request for memory.
#[derive(Clone, Copy, PartialEq, Eq, Structural, Debug)]
pub struct Request {
    pub size: u64,
    pub align: u64,
    pub flags: Flags,
    /// NUMA node for new folios, handed on to the system.
    pub nid: i32,
    /// The cache that new pages serve, or 0.
    pub cache: u64,
}

/// The page that a request needs.
#[derive(Clone, Copy, PartialEq, Eq, Structural, Debug)]
pub struct Target {
    /// Size class, or `None` for a page of its own.
    pub bin: Option<usize>,
    pub block_size: u32,
    /// Order of the folio.
    pub order: u32,
}

impl Target {
    /// The order fits the block size, and that the size class.
    pub open spec fn ok(self, shift: u32) -> bool {
        &&& 8 <= self.block_size
        &&& self.order == page::page_order(shift, self.block_size as int)
        &&& self.order <= 10
        &&& self.block_size <= os::folio_bytes(shift, self.order as int)
        &&& self.bin matches Some(b) ==> b < 15 && self.block_size == BINS@[b as int]
    }
}

/// What happened outside since the last step of a request.
pub enum MallocEvent {
    /// The request arrives.
    Enter,
    /// The lock of this CPU's heap was tried; `cpu` is the CPU if it is held.
    Locked { bin: usize, cpu: Option<u64> },
    /// A folio was asked for.
    Folio { target: Target, got: Option<Folio> },
    /// A folio for descriptors was asked for; `chunk` is where it is mapped.
    Chunk { target: Target, folio: Folio, chunk: Option<u64> },
    /// The lock of this CPU's heap was tried again.
    Relocked { bin: usize, page: MiPage, cpu: Option<u64> },
}

/// What a request needs next. A heap lock that is held is released first.
pub enum MallocStep {
    /// Nothing more: the address, or 0.
    Done(u64),
    /// The lock of this CPU's heap. It may be given up only if `may_fail`.
    Lock { bin: usize, may_fail: bool },
    /// A folio of the target's order, compound if that is not 0, with the
    /// request's flags and node.
    Folio { target: Target },
    /// A folio for descriptors, without sleeping, on any node.
    Chunk { target: Target, folio: Folio },
    /// The lock of this CPU's heap again, under the same condition.
    Relock { bin: usize, page: MiPage, may_fail: bool },
    /// Return the folio with this head page to the system; there is no memory.
    GiveBack { head: u64, order: u32 },
}

/// Bytes in a chunk of descriptors from the system.
pub open spec fn chunk_bytes(shift: u32) -> int {
    os::folio_bytes(shift, META_ORDER as int)
}

impl MallocEvent {
    /// The event goes on where a step left off, with folios as large as asked for, in
    /// pages of `1 << shift` bytes.
    pub open spec fn ok(self, shift: u32) -> bool {
        match self {
            MallocEvent::Enter => true,
            MallocEvent::Locked { bin, .. } => bin < 15,
            MallocEvent::Folio { target, got } => target.ok(shift) && (got matches Some(f)
                ==> f.wf(shift, target.order as int)),
            MallocEvent::Chunk { target, folio, chunk } => target.ok(shift) && folio.wf(
                shift,
                target.order as int,
            ) && (chunk matches Some(c) ==> 0 < c && c + chunk_bytes(shift) <= u64::MAX),
            MallocEvent::Relocked { bin, page, .. } => bin < 15 && page.wf()
                && page@.page_shift == shift && page@.block_size == BINS@[bin as int] && has_free(page@) && page@.meta != 0,
        }
    }
}

impl MallocStep {
    /// An event that echoes the step is one to go on with.
    pub open spec fn ok(self, shift: u32) -> bool {
        match self {
            MallocStep::Lock { bin, .. } => bin < 15,
            MallocStep::Folio { target } => target.ok(shift),
            MallocStep::Chunk { target, folio } => target.ok(shift) && folio.wf(
                shift,
                target.order as int,
            ),
            MallocStep::Relock { bin, page, .. } => bin < 15 && page.wf() && page@.page_shift
                == shift && page@.block_size == BINS@[bin as int] && has_free(page@) && page@.meta != 0,
            MallocStep::Done(_) | MallocStep::GiveBack { .. } => true,
        }
    }
}

/// `p` is a new page for `target`, with every block free.
pub open spec fn fresh_page(
    p: PageView,
    shift: u32,
    target: Target,
    folio: Folio,
    meta: u64,
    key: u64,
    cache: u64,
) -> bool {
    &&& p.wf()
    &&& p.block_size == target.block_size
    &&& p.capacity == os::folio_bytes(shift, target.order as int) / target.block_size as int
    &&& p.page_shift == shift
    &&& p.order == target.order
    &&& p.key == key
    &&& p.area == folio.area
    &&& p.folio == folio.page
    &&& p.cache == cache
    &&& p.meta == meta
    &&& p.local == page::all_blocks(folio.area, target.block_size, p.capacity)
    &&& p.thread == Seq::<u64>::empty()
}

/// How a request begins: the size class, or the page of its own that it needs.
pub open spec fn entered(shift: u32, req: Request, step: MallocStep) -> bool {
    let align = doubled(
        1,
        if req.align == 0 {
            1
        } else {
            req.align as int
        },
    ) as u64;
    let need = if req.size < align {
        align
    } else {
        req.size
    };
    let bytes = os::folio_bytes(shift, os::order_for(shift, need as int, 0));
    if req.size == 0 {
        step == MallocStep::Done(0)
    } else {
        match bin_of(shift, req.size, align) {
            Some(bin) => step == (MallocStep::Lock { bin, may_fail: !req.flags.may_block }),
            None => if os::order_for(shift, need as int, 0) > 10 {
                step == MallocStep::Done(0)
            } else {
                step == (MallocStep::Folio {
                    target: Target {
                        bin: None,
                        block_size: bytes as u32,
                        order: page::page_order(shift, bytes) as u32,
                    },
                })
            },
        }
    }
}

impl MiView {
    /// How a request goes on once its page is made; `meta` and the key are used up.
    pub open spec fn made(
        self,
        w: MiView,
        step: MallocStep,
        req: Request,
        target: Target,
        folio: Folio,
        meta: u64,
        arena: MetaView,
    ) -> bool {
        let v = MiView { meta: arena, key_seq: page::next_seq(self.key_seq), ..self };
        let key = page::page_key(meta, self.key_seq);
        match target.bin {
            Some(b) => {
                &&& w == v
                &&& step matches MallocStep::Relock { bin, page, may_fail }
                &&& bin == b
                &&& may_fail == !req.flags.may_block
                &&& page.wf()
                &&& fresh_page(page@, self.page_shift, target, folio, meta, key, req.cache)
            },
            None => {
                &&& step matches MallocStep::Done(addr)
                &&& exists|p: PageView| #[trigger]
                    fresh_page(p, self.page_shift, target, folio, meta, key, req.cache) && block_taken(
                        p,
                        w.pages.last(),
                        addr,
                    )
                &&& w == (MiView { pages: v.pages.push(w.pages.last()), ..v })
            },
        }
    }
}

impl Mi {
    fn make_page(&mut self, target: Target, folio: Folio, meta: u64, cache: u64) -> (r: MiPage)
        requires
            old(self).wf(),
            target.ok(old(self)@.page_shift),
            folio.wf(old(self)@.page_shift, target.order as int),
        ensures
            final(self).wf(),
            final(self)@ == (MiView {
                key_seq: page::next_seq(old(self)@.key_seq),
                ..old(self)@
            }),
            r.wf(),
            fresh_page(
                r@,
                old(self)@.page_shift,
                target,
                folio,
                meta,
                page::page_key(meta, old(self)@.key_seq),
                cache,
            ),
    {
        let ghost before = *self;
        let key = next_key(&mut self.key_seq, meta);
        proof {
            self.lemma_rest_changed(&before);
        }
        let r = MiPage::create(
            self.page_shift,
            target.block_size,
            target.order,
            folio,
            meta,
            key,
            cache,
        );
        proof {
            r.lemma_wf();
        }
        r
    }

    /// Rebuilds the view after only descriptors or the running number changed.
    proof fn lemma_rest_changed(&self, before: &Mi)
        requires
            before.wf(),
            self.pages == before.pages,
            self.bins == before.bins,
            self.page_shift == before.page_shift,
            self.meta@.wf(),
        ensures
            self.wf(),
            self@ == (MiView { meta: self.meta@, key_seq: self.key_seq, ..before@ }),
    {
        assert(self@.pages =~= before@.pages);
        assert(self@.bins =~= before@.bins);
        assert forall|s: int| 0 <= s < 1024 implies #[trigger] self@.bin_ok(s) by {
            assert(before@.bin_ok(s));
            assert forall|i: int| 0 <= i < self@.bins[s].list.len() implies self@.in_class(
                #[trigger] self@.bins[s].list[i],
                s,
            ) by {
                assert(before@.in_class(before@.bins[s].list[i], s));
            }
        }
    }

    /// Rebuilds the view after a page was added.
    proof fn lemma_page_added(&self, before: &Mi)
        requires
            before.wf(),
            self.pages@ == before.pages@.push(self.pages@.last()),
            self.pages@.last().wf(),
            self.pages@.last()@.page_shift == before.page_shift,
            self.bins == before.bins,
            self.meta == before.meta,
            self.key_seq == before.key_seq,
            self.page_shift == before.page_shift,
        ensures
            self.wf(),
            self@ == (MiView {
                pages: before@.pages.push(self.pages@.last()@),
                ..before@
            }),
    {
        self.pages@.last().lemma_wf();
        assert(self@.pages =~= before@.pages.push(self.pages@.last()@));
        assert(self@.bins =~= before@.bins);
        assert forall|j: int| 0 <= j < self@.pages.len() implies self@.page_ok(
            #[trigger] self@.pages[j],
        ) by {
            if j < before.pages@.len() {
                assert(self@.pages[j] == before@.pages[j]);
            }
        }
        assert forall|s: int| 0 <= s < 1024 implies #[trigger] self@.bin_ok(s) by {
            assert(before@.bin_ok(s));
            assert forall|i: int| 0 <= i < self@.bins[s].list.len() implies self@.in_class(
                #[trigger] self@.bins[s].list[i],
                s,
            ) by {
                assert(before@.in_class(before@.bins[s].list[i], s));
            }
        }
    }

    /// Goes on with a page that has just been made.
    fn page_made(&mut self, req: Request, target: Target, folio: Folio, meta: u64) -> (r: MallocStep)
        requires
            old(self).wf(),
            target.ok(old(self)@.page_shift),
            folio.wf(old(self)@.page_shift, target.order as int),
            meta != 0,
        ensures
            final(self).wf(),
            r.ok(old(self)@.page_shift),
            old(self)@.made(final(self)@, r, req, target, folio, meta, old(self)@.meta),
    {
        let ghost v = self@;
        let page = self.make_page(target, folio, meta, req.cache);
        match target.bin {
            Some(bin) => MallocStep::Relock { bin, page, may_fail: !req.flags.may_block },
            None => {
                let ghost p = page@;
                let ghost before = *self;
                let mut page = page;
                let addr = page.pop();
                proof {
                    page.lemma_wf();
                    assert(p.local.len() > 0);
                }
                self.pages.push(page);
                proof {
                    self.lemma_page_added(&before);
                    assert(self@.pages.last() == page@);
                    assert(block_taken(p, page@, addr));
                }
                MallocStep::Done(addr)
            },
        }
    }

    /// Puts a new page on bin `s` and takes its first block.
    fn link_page(&mut self, s: usize, page: MiPage) -> (r: u64)
        requires
            old(self).wf(),
            s < 1024,
            page.wf(),
            page@.page_shift == old(self)@.page_shift,
            page@.block_size == BINS@[s as int % 16],
            has_free(page@),
        ensures
            final(self).wf(),
            ({
                let v = old(self)@.linked(page@, s as int);
                v.takes(final(self)@, s as int, old(self)@.pages.len() as int, r)
            }),
    {
        let ghost v0 = self@;
        let ghost before = *self;
        let k = self.pages.len();
        let ghost p = page@;
        self.pages.push(page);
        proof {
            self.lemma_page_added(&before);
        }
        let ghost before1 = *self;
        self.bins[s].list.push(k);
        self.bins[s].current = Some(k);
        proof {
            assert(self.bins@ =~= before1.bins@.update(s as int, self.bins@[s as int]));
            self.lemma_page_listed(&before1, s as int, k);
            assert(self@ =~= v0.linked(p, s as int));
        }
        let ghost before2 = *self;
        let r = self.pages[k].pop();
        proof {
            self.lemma_page_changed(&before2, k as int);
            self.pages@[k as int].lemma_wf();
            let v = before2@;
            assert(v.bins.update(
                s as int,
                BinView { current: Some(k as int), ..v.bins[s as int] },
            ) =~= v.bins);
        }
        r
    }

    /// Rebuilds the view after page `k` became the newest and current one of bin `s`.
    proof fn lemma_page_listed(&self, before: &Mi, s: int, k: usize)
        requires
            before.wf(),
            0 <= s < 1024,
            before@.in_class(k as int, s),
            self.pages == before.pages,
            self.meta == before.meta,
            self.key_seq == before.key_seq,
            self.page_shift == before.page_shift,
            self.bins@ == before.bins@.update(s, self.bins@[s]),
            self.bins@[s].list@ == before.bins@[s].list@.push(k),
            self.bins@[s].current == Some(k),
        ensures
            self.wf(),
            self@ == (MiView {
                bins: before@.bins.update(
                    s,
                    BinView {
                        current: Some(k as int),
                        list: before@.bins[s].list.push(k as int),
                    },
                ),
                ..before@
            }),
    {
        let nb = BinView { current: Some(k as int), list: before@.bins[s].list.push(k as int) };
        assert(self@.pages =~= before@.pages);
        assert forall|j: int| 0 <= j < 1024 implies #[trigger] self@.bins[j] == (if j == s {
            nb
        } else {
            before@.bins[j]
        }) by {
            if j != s {
                assert(self.bins@[j] == before.bins@[j]);
                assert(self@.bins[j].list =~= before@.bins[j].list);
            } else {
                assert(self@.bins[j].list =~= nb.list);
            }
        }
        assert(self@.bins =~= before@.bins.update(s, nb));
        assert forall|j: int| 0 <= j < 1024 implies #[trigger] self@.bin_ok(j) by {
            assert(before@.bin_ok(j));
            assert(self@.bins[j] == if j == s {
                nb
            } else {
                before@.bins[j]
            });
            assert forall|i: int| 0 <= i < self@.bins[j].list.len() implies self@.in_class(
                #[trigger] self@.bins[j].list[i],
                j,
            ) by {
                if i < before@.bins[j].list.len() {
                    assert(before@.in_class(before@.bins[j].list[i], j));
                }
            }
        }
    }
}

/// The bin of size class `bin` on the heap of `cpu`.
fn heap_slot(cpu: u64, bin: usize) -> (r: usize)
    requires
        bin < 16,
    ensures
        r == slot_of(cpu, bin),
        r < 1024,
        r as int % 16 == bin,
{
    let index = (cpu % 64) as usize;
    index * BIN_COUNT + bin
}

impl MiView {
    /// `w` is this after a request went on with `event`, and `r` what it needs next.
    pub open spec fn malloc_next(
        self,
        w: MiView,
        req: Request,
        event: MallocEvent,
        r: MallocStep,
    ) -> bool {
        let v = self;
        match event {
            MallocEvent::Enter => w == v && entered(v.page_shift, req, r),
            MallocEvent::Locked { bin, cpu: None } => w == v && r == MallocStep::Done(0),
            MallocEvent::Locked { bin, cpu: Some(cpu) } => match v.pick(slot_of(cpu, bin)) {
                Some(k) => r matches MallocStep::Done(addr) && v.takes(
                    w,
                    slot_of(cpu, bin),
                    k,
                    addr,
                ),
                None => w == v && r == (MallocStep::Folio {
                    target: Target {
                        bin: Some(bin),
                        block_size: BINS@[bin as int],
                        order: page::page_order(v.page_shift, BINS@[bin as int] as int) as u32,
                    },
                }),
            },
            MallocEvent::Folio { target, got: None } => w == v && r == MallocStep::Done(0),
            MallocEvent::Folio { target, got: Some(folio) } => if v.meta.has_room() {
                let (arena, meta) = v.meta.taken();
                v.made(w, r, req, target, folio, meta, arena)
            } else {
                w == v && r == (MallocStep::Chunk { target, folio })
            },
            MallocEvent::Chunk { target, folio, chunk: None } => w == v && r == (
            MallocStep::GiveBack { head: folio.page, order: target.order }),
            MallocEvent::Chunk { target, folio, chunk: Some(chunk) } => {
                let full = v.meta.refilled(chunk, chunk_bytes(v.page_shift) as u64);
                let arena = MetaView { bump: (chunk + 80) as u64, ..full };
                v.made(w, r, req, target, folio, chunk, arena)
            },
            MallocEvent::Relocked { bin, page, cpu: None } => w == (MiView {
                meta: v.meta.returned(page@.meta),
                ..v
            }) && r == (MallocStep::GiveBack { head: page@.folio, order: page@.order }),
            MallocEvent::Relocked { bin, page, cpu: Some(cpu) } => {
                let s = slot_of(cpu, bin);
                r matches MallocStep::Done(addr) && v.linked(page@, s).takes(
                    w,
                    s,
                    v.pages.len() as int,
                    addr,
                )
            },
        }
    }
}

/// Goes on with a request for `req.size` bytes aligned to `req.align`, from a
/// size-class page or a folio of its own. There is no power of two above the
/// largest alignment.
pub fn malloc(mi: &mut Mi, req: Request, event: MallocEvent) -> (r: MallocStep)
    requires
        old(mi).wf(),
        event.ok(old(mi)@.page_shift),
        event is Enter ==> req.align <= 0x8000_0000_0000_0000,
    ensures
        final(mi).wf(),
        r.ok(old(mi)@.page_shift),
        old(mi)@.malloc_next(final(mi)@, req, event, r),
{
    match event {
        MallocEvent::Enter => begin(mi.page_shift, req),
        MallocEvent::Locked { bin, cpu } => {
            match cpu {
                None => MallocStep::Done(0),
                Some(cpu) => {
                    let s = heap_slot(cpu, bin);
                    let p = mi.try_bin(s);
                    if p != 0 {
                        return MallocStep::Done(p);
                    }
                    let block_size = bin_size(bin);
                    proof {
                        lemma_bins_positive(bin as int);
                        os::lemma_folio_bytes(mi.page_shift, 0);
                        os::lemma_folio_bytes(mi.page_shift, 1);
                        lemma_page_order(mi.page_shift, block_size as int);
                    }
                    match create_order(mi.page_shift, block_size) {
                        None => MallocStep::Done(0),
                        Some(order) => MallocStep::Folio {
                            target: Target { bin: Some(bin), block_size, order },
                        },
                    }
                },
            }
        },
        MallocEvent::Folio { target, got } => {
            match got {
                None => MallocStep::Done(0),
                Some(folio) => {
                    let ghost before = *mi;
                    match mi.meta.meta_take() {
                        None => {
                            proof {
                                mi.lemma_rest_changed(&before);
                            }
                            MallocStep::Chunk { target, folio }
                        },
                        Some(meta) => {
                            proof {
                                mi.lemma_rest_changed(&before);
                            }
                            mi.page_made(req, target, folio, meta)
                        },
                    }
                },
            }
        },
        MallocEvent::Chunk { target, folio, chunk } => {
            match chunk {
                None => MallocStep::GiveBack { head: folio.page, order: target.order },
                Some(chunk) => {
                    let ghost before = *mi;
                    let bytes = os::page_size_bytes(mi.page_shift, META_ORDER);
                    let meta = mi.meta.meta_refill(chunk, bytes);
                    proof {
                        mi.lemma_rest_changed(&before);
                    }
                    mi.page_made(req, target, folio, meta)
                },
            }
        },
        MallocEvent::Relocked { bin, page, cpu } => {
            match cpu {
                None => {
                    let (head, order) = page.folio();
                    let ghost before = *mi;
                    mi.meta.meta_free(page.meta());
                    proof {
                        mi.lemma_rest_changed(&before);
                    }
                    MallocStep::GiveBack { head, order }
                },
                Some(cpu) => {
                    let s = heap_slot(cpu, bin);
                    MallocStep::Done(mi.link_page(s, page))
                },
            }
        },
    }
}

/// How a request begins.
fn begin(shift: u32, req: Request) -> (r: MallocStep)
    requires
        os::is_page_shift(shift),
        req.align <= 0x8000_0000_0000_0000,
    ensures
        entered(shift, req, r),
        r.ok(shift),
{
    if req.size == 0 {
        return MallocStep::Done(0);
    }
    let align = next_power_of_two(
        if req.align == 0 {
            1
        } else {
            req.align
        },
    );
    match bin_for_size(shift, req.size, align) {
        Some(bin) => MallocStep::Lock { bin, may_fail: !req.flags.may_block },
        None => malloc_huge(shift, req.size, align),
    }
}

/// The page of its own that `size` bytes aligned to `align` need.
fn malloc_huge(shift: u32, size: u64, align: u64) -> (r: MallocStep)
    requires
        os::is_page_shift(shift),
    ensures
        r.ok(shift),
        ({
            let need = if size < align {
                align
            } else {
                size
            };
            let bytes = os::folio_bytes(shift, os::order_for(shift, need as int, 0));
            if os::order_for(shift, need as int, 0) > 10 {
                r == MallocStep::Done(0)
            } else {
                r == (MallocStep::Folio {
                    target: Target {
                        bin: None,
                        block_size: bytes as u32,
                        order: page::page_order(shift, bytes) as u32,
                    },
                })
            }
        }),
{
    let need: u64 = if size < align {
        align
    } else {
        size
    };
    match os::smallest_order(shift, need) {
        None => MallocStep::Done(0),
        Some(order) => {
            let block_size = os::page_size_bytes(shift, order) as u32;
            proof {
                os::lemma_folio_bytes(shift, order as int);
                lemma_page_order(shift, block_size as int);
            }
            match create_order(shift, block_size) {
                None => MallocStep::Done(0),
                Some(order) => MallocStep::Folio {
                    target: Target { bin: None, block_size, order },
                },
            }
        },
    }
}

/// A folio can be had for every block size up to the largest folio.
proof fn lemma_page_order(shift: u32, size: int)
    requires
        os::is_page_shift(shift),
        0 < size <= os::folio_bytes(shift, 10),
    ensures
        0 <= page::page_order(shift, size) <= 10,
{
    lemma_order_for(shift, size, 0);
}

proof fn lemma_order_for(shift: u32, need: int, o: int)
    requires
        0 <= o <= 10,
        need <= os::folio_bytes(shift, 10),
    ensures
        o <= os::order_for(shift, need, o) <= 10,
    decreases 11 - o,
{
    if os::folio_bytes(shift, o) < need {
        lemma_order_for(shift, need, o + 1);
    }
}

impl MiView {
    /// `w` is this with the block at `ptr` given back to page `k`.
    pub open spec fn frees(self, w: MiView, k: int, ptr: u64, local: bool) -> bool {
        let a = self.pages[k];
        let b = w.pages[k];
        &&& w == (MiView { pages: self.pages.update(k, b), ..self })
        &&& a.allocated(ptr)
        &&& b.wf()
        &&& b == if local {
            a.pushed(b.mem, ptr)
        } else {
            a.pushed_thread(b.mem, ptr)
        }
        &&& b.kept_by(a)
    }

    /// What giving back `ptr` makes of this, and the result. `locked` says that
    /// the heap lock is held.
    pub open spec fn freed(self, w: MiView, ptr: u64, locked: bool, r: bool) -> bool {
        let k = page_of(self.pages, ptr, 0);
        if ptr == 0 {
            r && w == self
        } else if k >= self.pages.len() || !self.pages[k].is_block(ptr) || self.pages[k].looks_free(
            ptr,
        ) {
            !r && w == self
        } else {
            r && self.frees(w, k, ptr, locked)
        }
    }
}

/// Collects a page that has become empty. Empty pages are kept for reuse.
fn maybe_release_empty(page: &mut MiPage)
    requires
        old(page).wf(),
    ensures
        final(page).wf(),
        final(page)@ == old(page)@,
{
    if !page.is_unused() {
        return;
    }
    proof {
        page.lemma_wf();
    }
    page.collect();
}

/// Gives back a block. Returns false for a double free or an address that is no
/// block's.
///
/// With the heap lock held the block is free at once, else when it is collected.
pub fn free(mi: &mut Mi, ptr: u64, locked: bool) -> (r: bool)
    requires
        old(mi).wf(),
    ensures
        final(mi).wf(),
        old(mi)@.freed(final(mi)@, ptr, locked, r),
{
    if ptr == 0 {
        return true;
    }
    let ghost v = mi@;
    match mi.from_ptr(ptr) {
        None => false,
        Some(k) => {
            let ghost before = *mi;
            assert(v.pages[k as int] == mi.pages@[k as int]@);
            if !mi.pages[k].holds_block(ptr) {
                return false;
            }
            if locked {
                if !mi.pages[k].push_local(ptr) {
                    proof {
                        mi.lemma_page_changed(&before, k as int);
                        assert(mi@.pages =~= v.pages);
                    }
                    return false;
                }
                maybe_release_empty(&mut mi.pages[k]);
                proof {
                    assert(mi.pages@ =~= before.pages@.update(k as int, mi.pages@[k as int]));
                    mi.lemma_page_changed(&before, k as int);
                    mi.pages@[k as int].lemma_wf();
                }
                true
            } else {
                let r = mi.pages[k].push_thread(ptr);
                proof {
                    mi.lemma_page_changed(&before, k as int);
                    mi.pages@[k as int].lemma_wf();
                    if !r {
                        assert(mi@.pages =~= v.pages);
                    }
                }
                r
            }
        },
    }
}

impl MiView {
    /// Bytes in the block at `ptr`, or 0 for a foreign pointer.
    pub open spec fn usable(self, ptr: u64) -> u64 {
        let k = page_of(self.pages, ptr, 0);
        if ptr != 0 && k < self.pages.len() {
            self.pages[k].block_size as u64
        } else {
            0
        }
    }

    /// The block at `ptr` is handed out.
    pub open spec fn live(self, ptr: u64) -> bool {
        let k = page_of(self.pages, ptr, 0);
        k < self.pages.len() && self.pages[k].allocated(ptr)
    }

    /// The byte at `at` of the block at `ptr`.
    pub open spec fn byte(self, ptr: u64, at: int) -> u8 {
        let p = self.pages[page_of(self.pages, ptr, 0)];
        p.mem[p.off(ptr) + at]
    }

    /// `w` is this with other bytes in the block at `ptr`, between `from` and `to`.
    pub open spec fn written(self, w: MiView, ptr: u64, from: int, to: int) -> bool {
        let k = page_of(self.pages, ptr, 0);
        let a = self.pages[k];
        let b = w.pages[k];
        &&& w == (MiView { pages: self.pages.update(k, b), ..self })
        &&& b == (PageView { mem: b.mem, ..a })
        &&& b.wf()
        &&& a.rewritten(b.mem, ptr, from, to - from)
    }
}

/// Bytes in the block at `ptr`, or 0 for a foreign pointer.
pub fn usable_size(mi: &Mi, ptr: u64) -> (r: u64)
    requires
        mi.wf(),
    ensures
        r == mi@.usable(ptr),
{
    if ptr == 0 {
        return 0;
    }
    match mi.from_ptr(ptr) {
        None => 0,
        Some(k) => {
            assert(mi@.pages[k as int] == mi.pages@[k as int]@);
            mi.pages[k].block_size() as u64
        },
    }
}

/// The byte at `at` of the block at `ptr`.
pub fn load(mi: &Mi, ptr: u64, at: u64) -> (r: u8)
    requires
        mi.wf(),
        mi@.live(ptr),
        at < mi@.usable(ptr),
    ensures
        r == mi@.byte(ptr, at as int),
{
    match mi.from_ptr(ptr) {
        None => 0,
        Some(k) => {
            assert(mi@.pages[k as int] == mi.pages@[k as int]@);
            mi.pages[k].get(ptr, at)
        },
    }
}

/// Sets the bytes from `from` to `to` of the block at `ptr` to `val`.
pub fn write_bytes(mi: &mut Mi, ptr: u64, from: u64, to: u64, val: u8)
    requires
        old(mi).wf(),
        old(mi)@.live(ptr),
        ptr != 0,
        from <= to <= old(mi)@.usable(ptr),
    ensures
        final(mi).wf(),
        old(mi)@.written(final(mi)@, ptr, from as int, to as int),
        forall|i: int| from <= i < to ==> #[trigger] final(mi)@.byte(ptr, i) == val,
{
    let ghost v = mi@;
    match mi.from_ptr(ptr) {
        None => {},
        Some(k) => {
            let ghost before = *mi;
            assert(v.pages[k as int] == mi.pages@[k as int]@);
            mi.pages[k].fill(ptr, from, val, to - from);
            proof {
                mi.lemma_page_changed(&before, k as int);
                mi.pages@[k as int].lemma_wf();
                lemma_page_of_same(v.pages, mi@.pages, ptr, 0);
                assert forall|i: int| from <= i < to implies #[trigger] mi@.byte(ptr, i) == val by {
                    let p = mi@.pages[k as int];
                    assert(p.mem[v.pages[k as int].off(ptr) + i] == val);
                }
            }
        },
    }
}

/// Pages that keep their folios hold the same addresses.
pub proof fn lemma_page_of_same(a: Seq<PageView>, b: Seq<PageView>, addr: u64, from: int)
    requires
        a.len() == b.len(),
        0 <= from <= a.len(),
        forall|k: int|
            0 <= k < a.len() ==> (#[trigger] a[k]).area == b[k].area && a[k].order == b[k].order
                && a[k].page_shift == b[k].page_shift,
    ensures
        page_of(a, addr, from) == page_of(b, addr, from),
    decreases a.len() - from,
{
    if from < a.len() {
        assert(a[from].area == b[from].area);
        lemma_page_of_same(a, b, addr, from + 1);
    }
}

/// What resizing a block needs next.
#[derive(Clone, Copy, PartialEq, Eq, Structural, Debug)]
pub enum ReallocStep {
    /// Return this address.
    Done(u64),
    /// Free the block and return a null pointer.
    Free,
    /// Run this request and return its outcome.
    Malloc(Request),
    /// Run this request and pass its outcome to [`realloc_move`].
    Move(Request),
}

impl MiView {
    /// How resizing the block at `ptr` begins.
    pub open spec fn resize(
        self,
        ptr: u64,
        new_size: u64,
        align: u64,
        flags: Flags,
        nid: i32,
    ) -> ReallocStep {
        let req = Request { size: new_size, align, flags, nid, cache: 0 };
        let by = if align == 0 {
            1
        } else {
            align as int
        };
        if ptr == 0 {
            ReallocStep::Malloc(req)
        } else if new_size == 0 {
            ReallocStep::Free
        } else if new_size <= self.usable(ptr) && ptr as int % by == 0 {
            ReallocStep::Done(ptr)
        } else {
            ReallocStep::Move(req)
        }
    }
}

/// Begins to resize the block at `ptr`.
pub fn realloc(mi: &Mi, ptr: u64, new_size: u64, align: u64, flags: Flags, nid: i32) -> (r:
    ReallocStep)
    requires
        mi.wf(),
    ensures
        r == mi@.resize(ptr, new_size, align, flags, nid),
{
    let req = Request { size: new_size, align, flags, nid, cache: 0 };
    if ptr == 0 {
        return ReallocStep::Malloc(req);
    }
    if new_size == 0 {
        return ReallocStep::Free;
    }
    let old = usable_size(mi, ptr);
    let by: u64 = if align == 0 {
        1
    } else {
        align
    };
    if new_size <= old && ptr % by == 0 {
        return ReallocStep::Done(ptr);
    }
    ReallocStep::Move(req)
}

impl MiView {
    /// Bytes that a move from `ptr` to a block for `new_size` bytes carries over.
    pub open spec fn carried(self, ptr: u64, new_size: u64) -> u64 {
        if self.usable(ptr) < new_size {
            self.usable(ptr)
        } else {
            new_size
        }
    }

    /// `w` is this after the object at `ptr` moved to the block at `new`, if that is not 0.
    pub open spec fn moved(
        self,
        w: MiView,
        ptr: u64,
        new: u64,
        new_size: u64,
        locked: bool,
    ) -> bool {
        let n = self.carried(ptr, new_size);
        if new == 0 {
            w == self
        } else {
            exists|u: MiView, f: bool|
                #![trigger u.freed(w, ptr, locked, f)]
                {
                    &&& self.written(u, new, 0, n as int)
                    &&& u.freed(w, ptr, locked, f)
                    &&& forall|i: int| 0 <= i < n ==> #[trigger] u.byte(new, i) == self.byte(ptr, i)
                }
        }
    }
}

/// Copies the first `n` bytes of the block at `from` to the block at `to`.
fn copy_bytes(mi: &mut Mi, from: u64, to: u64, n: u64)
    requires
        old(mi).wf(),
        from != to,
        old(mi)@.live(to),
        n <= old(mi)@.usable(to),
        n > 0 ==> old(mi)@.live(from) && n <= old(mi)@.usable(from),
        to != 0,
    ensures
        final(mi).wf(),
        old(mi)@.written(final(mi)@, to, 0, n as int),
        forall|i: int|
            0 <= i < n ==> #[trigger] final(mi)@.byte(to, i) == old(mi)@.byte(from, i),
{
    let ghost v = mi@;
    match mi.from_ptr(to) {
        None => {},
        Some(t) => {
            let ghost a = v.pages[t as int];
            assert(v.pages[t as int] == mi.pages@[t as int]@);
            proof {
                mi.pages@[t as int].lemma_wf();
                a.lemma_block_inside(to);
                assert(v.pages.update(t as int, a) =~= v.pages);
                assert(v.written(v, to, 0, 0));
            }
            if n == 0 {
                return;
            }
            match mi.from_ptr(from) {
                None => {},
                Some(f) => {
                    let ghost src = v.pages[f as int];
                    assert(v.pages[f as int] == mi.pages@[f as int]@);
                    proof {
                        mi.pages@[f as int].lemma_wf();
                        src.lemma_block_inside(from);
                        if f == t {
                            a.lemma_blocks_apart(from, to);
                        }
                    }
                    let mut i: u64 = 0;
                    while i < n
                        invariant
                            mi.wf(),
                            i <= n,
                            t < mi.pages@.len(),
                            f < mi.pages@.len(),
                            v.pages.len() == mi.pages@.len(),
                            t == page_of(v.pages, to, 0),
                            f == page_of(v.pages, from, 0),
                            a == v.pages[t as int],
                            src == v.pages[f as int],
                            a.wf(),
                            src.wf(),
                            a.allocated(to),
                            src.allocated(from),
                            n <= a.block_size,
                            n <= src.block_size,
                            0 <= a.off(to),
                            a.off(to) + a.block_size <= a.mem.len(),
                            0 <= src.off(from),
                            src.off(from) + src.block_size <= src.mem.len(),
                            f == t ==> src.off(from) + src.block_size <= a.off(to) || a.off(to)
                                + a.block_size <= src.off(from),
                            v.written(mi@, to, 0, i as int),
                            forall|j: int|
                                0 <= j < i ==> #[trigger] mi@.pages[t as int].mem[a.off(to) + j]
                                    == src.mem[src.off(from) + j],
                        decreases n - i,
                    {
                        let ghost before = *mi;
                        let ghost u = mi@;
                        assert(u.pages[t as int] == mi.pages@[t as int]@);
                        assert(u.pages[f as int] == mi.pages@[f as int]@);
                        let b = mi.pages[f].get(from, i);
                        assert(b == src.mem[src.off(from) + i]);
                        mi.pages[t].put(to, i, b);
                        proof {
                            mi.lemma_page_changed(&before, t as int);
                            mi.pages@[t as int].lemma_wf();
                            assert(mi@.pages =~= v.pages.update(t as int, mi@.pages[t as int]));
                        }
                        i = i + 1;
                    }
                    proof {
                        lemma_page_of_same(v.pages, mi@.pages, to, 0);
                        assert forall|j: int| 0 <= j < n implies #[trigger] mi@.byte(to, j)
                            == v.byte(from, j) by {
                            assert(mi@.pages[t as int].mem[a.off(to) + j] == src.mem[src.off(from)
                                + j]);
                        }
                    }
                },
            }
        },
    }
}

/// Ends a move: `new` is the outcome of the request, or 0. The block at `ptr` is
/// copied there and given back.
pub fn realloc_move(mi: &mut Mi, ptr: u64, new: u64, new_size: u64, locked: bool) -> (r: u64)
    requires
        old(mi).wf(),
        ptr != 0,
        new != 0 ==> {
            &&& new != ptr
            &&& old(mi)@.live(new)
            &&& new_size <= old(mi)@.usable(new)
            &&& old(mi)@.usable(ptr) != 0 ==> old(mi)@.live(ptr)
        },
    ensures
        final(mi).wf(),
        r == new,
        old(mi)@.moved(final(mi)@, ptr, new, new_size, locked),
        new != 0 ==> forall|i: int|
            0 <= i < old(mi)@.carried(ptr, new_size) ==> #[trigger] final(mi)@.byte(new, i)
                == old(mi)@.byte(ptr, i),
{
    if new == 0 {
        return 0;
    }
    let ghost v = mi@;
    let old_size = usable_size(mi, ptr);
    let n: u64 = if old_size < new_size {
        old_size
    } else {
        new_size
    };
    copy_bytes(mi, ptr, new, n);
    let ghost u = mi@;
    proof {
        lemma_page_of_at(v.pages, ptr, 0);
        lemma_page_of_at(v.pages, new, 0);
        lemma_page_of_same(v.pages, u.pages, ptr, 0);
        lemma_page_of_same(v.pages, u.pages, new, 0);
        let k = page_of(v.pages, ptr, 0);
        if k < v.pages.len() {
            assert(v.pages[k].wf());
            assert(v.usable(ptr) != 0);
            assert(u.pages[k] == (PageView { mem: u.pages[k].mem, ..v.pages[k] }));
        }
    }
    let f = free(mi, ptr, locked);
    proof {
        let w = mi@;
        assert(u.freed(w, ptr, locked, f));
        lemma_free_keeps(u, w, ptr, locked, f, new);
        assert forall|i: int| 0 <= i < v.carried(ptr, new_size) implies #[trigger] w.byte(new, i)
            == v.byte(ptr, i) by {
            assert(u.byte(new, i) == v.byte(ptr, i));
            assert(w.byte(new, i) == u.byte(new, i));
        }
    }
    new
}

/// Giving back one block leaves the bytes of another alone.
pub proof fn lemma_free_keeps(u: MiView, w: MiView, ptr: u64, locked: bool, r: bool, other: u64)
    requires
        u.wf(),
        u.freed(w, ptr, locked, r),
        ptr != other,
        u.live(other),
    ensures
        w.live(other),
        forall|i: int| 0 <= i < u.usable(other) ==> #[trigger] w.byte(other, i) == u.byte(other, i),
{
    let k = page_of(u.pages, ptr, 0);
    let j = page_of(u.pages, other, 0);
    lemma_page_of_at(u.pages, ptr, 0);
    lemma_page_of_at(u.pages, other, 0);
    if ptr != 0 && k < u.pages.len() && u.pages[k].is_block(ptr) && !u.pages[k].looks_free(ptr) {
        lemma_page_of_same(u.pages, w.pages, other, 0);
        if j == k {
            let a = u.pages[k];
            let b = w.pages[k];
            page::lemma_pushed_contains(a.local, ptr, other);
            page::lemma_pushed_contains(a.thread, ptr, other);
            assert(b.allocated(other));
            assert(page::same_block(a, b, other));
            assert forall|i: int| 0 <= i < u.usable(other) implies #[trigger] w.byte(other, i)
                == u.byte(other, i) by {
                assert(a.mem[b.off(other) + i] == b.mem[b.off(other) + i]);
            }
        } else {
            assert(w.pages[j] == u.pages[j]);
        }
    }
}

pub proof fn lemma_page_of_at(pages: Seq<PageView>, addr: u64, from: int)
    requires
        0 <= from <= pages.len(),
    ensures
        from <= page_of(pages, addr, from) <= pages.len(),
        page_of(pages, addr, from) < pages.len() ==> pages[page_of(pages, addr, from)].contains(
            addr,
        ),
    decreases pages.len() - from,
{
    if from < pages.len() && !pages[from].contains(addr) {
        lemma_page_of_at(pages, addr, from + 1);
    }
}

} // verus!
