//! What holds of the small-object allocator as a whole.

use vstd::prelude::*;
use crate::allocator::mi;
use crate::allocator::mi::heap;
use crate::allocator::mi::heap::{MallocEvent, MallocStep, MiView, ReallocStep, Request, Target};
use crate::allocator::mi::mem;
use crate::allocator::mi::meta::MetaView;
use crate::allocator::mi::os;
use crate::allocator::mi::page;
use crate::allocator::mi::page::{Folio, PageView};
use crate::allocator::mi::{KmallocStep, MiReallocStep, MiStep};
use crate::allocator::request::{Flags, Layout, NumaNode};

verus! {

/// A freed block is recognised: freeing it again fails and changes nothing.
pub proof fn law_double_free(
    v: MiView,
    w: MiView,
    x: MiView,
    ptr: u64,
    locked: bool,
    again: bool,
    r: bool,
)
    requires
        v.wf(),
        ptr != 0,
        v.freed(w, ptr, locked, true),
        w.freed(x, ptr, again, r),
    ensures
        !r,
        x == w,
{
    let k = heap::page_of(v.pages, ptr, 0);
    heap::lemma_page_of_at(v.pages, ptr, 0);
    heap::lemma_page_of_same(v.pages, w.pages, ptr, 0);
    let b = w.pages[k];
    page::lemma_free_is_marked(b, ptr);
    let a = v.pages[k];
    page::lemma_pushed_contains(a.local, ptr, ptr);
    page::lemma_pushed_contains(a.thread, ptr, ptr);
    assert(b.is_free(ptr));
}

/// Freeing a block that is handed out, and does not carry the mark of a free one,
/// succeeds, and the block is free afterwards.
pub proof fn law_free_succeeds(v: MiView, w: MiView, ptr: u64, locked: bool, r: bool)
    requires
        v.wf(),
        v.live(ptr),
        ptr != 0,
        !v.pages[heap::page_of(v.pages, ptr, 0)].looks_free(ptr),
        v.freed(w, ptr, locked, r),
    ensures
        r,
        !w.live(ptr),
{
    let k = heap::page_of(v.pages, ptr, 0);
    heap::lemma_page_of_at(v.pages, ptr, 0);
    heap::lemma_page_of_same(v.pages, w.pages, ptr, 0);
    let a = v.pages[k];
    page::lemma_pushed_contains(a.local, ptr, ptr);
    page::lemma_pushed_contains(a.thread, ptr, ptr);
}

/// A block that was just handed out is not mistaken for a free one.
pub proof fn law_fresh_not_free(a: PageView, b: PageView, addr: u64)
    requires
        heap::block_taken(a, b, addr),
    ensures
        !b.looks_free(addr),
{
}

/// Blocks that are handed out do not overlap.
pub proof fn law_live_disjoint(v: MiView, p: u64, q: u64)
    requires
        v.wf(),
        v.apart(),
        v.live(p),
        v.live(q),
        p < q,
    ensures
        p + v.usable(p) <= q,
{
    let i = heap::page_of(v.pages, p, 0);
    let j = heap::page_of(v.pages, q, 0);
    heap::lemma_page_of_at(v.pages, p, 0);
    heap::lemma_page_of_at(v.pages, q, 0);
    let a = v.pages[i];
    let b = v.pages[j];
    a.lemma_block_inside(p);
    if i == j {
        a.lemma_blocks_apart(p, q);
    } else if p + a.block_size > q {
        assert(a.contains(q));
        assert(b.contains(q));
    }
}

/// Handing out, giving back and writing blocks leaves the pages apart.
pub proof fn law_pages_stay_apart(
    v: MiView,
    w: MiView,
    slot: int,
    page: int,
    addr: u64,
    locked: bool,
    r: bool,
    from: int,
    to: int,
)
    requires
        v.apart(),
        0 <= page < v.pages.len(),
        heap::page_of(v.pages, addr, 0) < v.pages.len(),
        v.takes(w, slot, page, addr) || v.freed(w, addr, locked, r) || v.written(w, addr, from, to),
    ensures
        w.apart(),
{
    heap::lemma_page_of_at(v.pages, addr, 0);
    assert forall|i: int, j: int, x: u64|
        0 <= i < w.pages.len() && 0 <= j < w.pages.len() && #[trigger] w.pages[i].contains(x)
            && #[trigger] w.pages[j].contains(x) implies i == j by {
        assert(v.pages[i].contains(x));
        assert(v.pages[j].contains(x));
    }
}

/// A new page that shares no address with the others leaves the pages apart.
pub proof fn law_new_page_apart(v: MiView, p: PageView, slot: int)
    requires
        v.apart(),
        forall|i: int, x: u64|
            0 <= i < v.pages.len() && #[trigger] v.pages[i].contains(x) ==> !p.contains(x),
    ensures
        v.linked(p, slot).apart(),
{
    let w = v.linked(p, slot);
    let n = v.pages.len() as int;
    assert forall|i: int, j: int, x: u64|
        0 <= i < w.pages.len() && 0 <= j < w.pages.len() && #[trigger] w.pages[i].contains(x)
            && #[trigger] w.pages[j].contains(x) implies i == j by {
        if i < n {
            assert(v.pages[i].contains(x));
        }
        if j < n {
            assert(v.pages[j].contains(x));
        }
    }
}

/// A block handed out from a page is live, as large as the page's blocks, and was not
/// handed out before.
pub proof fn law_taken_block(v: MiView, w: MiView, s: int, k: int, addr: u64)
    requires
        v.wf(),
        v.apart(),
        0 <= k < v.pages.len(),
        heap::has_free(v.pages[k]),
        v.takes(w, s, k, addr),
    ensures
        !v.live(addr),
        w.live(addr),
        w.usable(addr) == v.pages[k].block_size,
{
    let a = v.pages[k];
    w.pages[k].lemma_block_inside(addr);
    heap::lemma_page_of_same(v.pages, w.pages, addr, 0);
    lemma_unique_page(v, addr, k);
    page::lemma_collected_contains(a.local, a.thread, addr);
    let c = a.thread.reverse() + a.local;
    assert(c.contains(c[0]));
}

/// Handing out a block leaves every other live block as it was.
pub proof fn law_taken_keeps(v: MiView, w: MiView, s: int, k: int, addr: u64, other: u64)
    requires
        v.wf(),
        v.apart(),
        0 <= k < v.pages.len(),
        heap::has_free(v.pages[k]),
        v.takes(w, s, k, addr),
        v.live(other),
    ensures
        w.live(other),
        forall|i: int| 0 <= i < v.usable(other) ==> #[trigger] w.byte(other, i) == v.byte(other, i),
{
    let a = v.pages[k];
    let b = w.pages[k];
    heap::lemma_page_of_at(v.pages, other, 0);
    heap::lemma_page_of_same(v.pages, w.pages, other, 0);
    let c = a.thread.reverse() + a.local;
    let j = heap::page_of(v.pages, other, 0);
    if j == k {
        assert(a.allocated(other));
        page::lemma_collected_contains(a.local, a.thread, other);
        if b.local.contains(other) {
            let i = choose|i: int| 0 <= i < b.local.len() && b.local[i] == other;
            assert(c[i + 1] == other);
        }
        assert(page::same_block(b, a, other));
        assert forall|i: int| 0 <= i < v.usable(other) implies #[trigger] w.byte(other, i)
            == v.byte(other, i) by {
            assert(b.mem[a.off(other) + i] == a.mem[a.off(other) + i]);
        }
    } else {
        assert(w.pages[j] == v.pages[j]);
    }
}

/// An address belongs to the only page that holds it.
proof fn lemma_unique_page(v: MiView, addr: u64, k: int)
    requires
        v.apart(),
        0 <= k < v.pages.len(),
        v.pages[k].contains(addr),
    ensures
        heap::page_of(v.pages, addr, 0) == k,
{
    heap::lemma_page_of_at(v.pages, addr, 0);
    lemma_page_of_before(v.pages, addr, 0, k);
}

proof fn lemma_page_of_before(pages: Seq<PageView>, addr: u64, from: int, k: int)
    requires
        0 <= from <= k < pages.len(),
        pages[k].contains(addr),
    ensures
        heap::page_of(pages, addr, from) <= k,
    decreases k - from,
{
    if from < k && !pages[from].contains(addr) {
        lemma_page_of_before(pages, addr, from + 1, k);
    }
}

/// Alignment that a request is served with: the next power of two.
pub open spec fn effective_align(req: Request) -> int {
    heap::doubled(
        1,
        if req.align == 0 {
            1
        } else {
            req.align as int
        },
    )
}

/// Block size of the page that a request goes to.
pub open spec fn step_block_size(step: MallocStep) -> int {
    match step {
        MallocStep::Lock { bin, .. } => heap::BINS@[bin as int] as int,
        MallocStep::Folio { target } => target.block_size as int,
        _ => 0,
    }
}

/// The blocks that a request is served from are large enough for it, and their
/// size is a multiple of its alignment.
pub proof fn law_block_fits(shift: u32, req: Request, step: MallocStep)
    requires
        os::is_page_shift(shift),
        req.align <= 0x8000_0000_0000_0000,
        heap::entered(shift, req, step),
        step is Lock || step is Folio,
    ensures
        step_block_size(step) >= req.size,
        step_block_size(step) >= effective_align(req),
        step_block_size(step) % effective_align(req) == 0,
        step matches MallocStep::Lock { bin, .. } ==> bin < 15,
{
    let x = if req.align == 0 {
        1
    } else {
        req.align as int
    };
    let a = effective_align(req);
    vstd::arithmetic::power2::lemma2_to64();
    lemma_doubled(1, x, 0);
    vstd::arithmetic::power2::lemma2_to64_rest();
    let k = choose|k: nat| k <= 63 && #[trigger] vstd::arithmetic::power2::pow2(k) == a;
    if k < 63 {
        vstd::arithmetic::power2::lemma_pow2_strictly_increases(k, 63);
    }
    assert(1 <= a <= 0x8000_0000_0000_0000);
    let al = a as u64;
    let need = if req.size < al {
        al
    } else {
        req.size
    };
    match heap::bin_of(shift, req.size, al) {
        Some(bin) => {
            heap::lemma_bin_from(heap::block_need(req.size, al) as int, a, 0);
        },
        None => {
            let o = os::order_for(shift, need as int, 0);
            lemma_order_enough(shift, need as int, 0);
            os::lemma_folio_bytes(shift, o);
            assert(os::folio_bytes(shift, o) >= need);
            let j = (shift + o) as nat;
            if k > j {
                vstd::arithmetic::power2::lemma_pow2_strictly_increases(j, k);
            }
            lemma_pow2_divides(k, j);
        },
    }
}

proof fn lemma_order_enough(shift: u32, need: int, o: int)
    requires
        0 <= o,
    ensures
        o <= os::order_for(shift, need, o),
        os::order_for(shift, need, o) <= 10 ==> os::folio_bytes(
            shift,
            os::order_for(shift, need, o),
        ) >= need,
    decreases 11 - o,
{
    if o <= 10 && os::folio_bytes(shift, o) < need {
        lemma_order_enough(shift, need, o + 1);
    }
}

/// Doubling 1 gives a power of two.
proof fn lemma_doubled(p: int, x: int, k: nat)
    requires
        p == vstd::arithmetic::power2::pow2(k),
        k <= 63,
        x <= 0x8000_0000_0000_0000,
    ensures
        exists|j: nat| j <= 63 && #[trigger] vstd::arithmetic::power2::pow2(j) == heap::doubled(
            p,
            x,
        ),
        heap::doubled(p, x) >= x,
    decreases 63 - k,
{
    vstd::arithmetic::power2::lemma_pow2_pos(k);
    if p < x {
        vstd::arithmetic::power2::lemma2_to64_rest();
        assert(k < 63);
        vstd::arithmetic::power2::lemma_pow2_unfold(k + 1);
        lemma_doubled(2 * p, x, k + 1);
    } else {
        assert(vstd::arithmetic::power2::pow2(k) == heap::doubled(p, x));
    }
}

proof fn lemma_pow2_divides(k: nat, j: nat)
    requires
        k <= j,
    ensures
        vstd::arithmetic::power2::pow2(j) as int % vstd::arithmetic::power2::pow2(k) as int == 0,
{
    let a = vstd::arithmetic::power2::pow2(k) as int;
    let d = (j - k) as nat;
    let b = vstd::arithmetic::power2::pow2(d) as int;
    vstd::arithmetic::power2::lemma_pow2_pos(k);
    vstd::arithmetic::power2::lemma_pow2_adds(k, d);
    assert(a * b == b * a) by (nonlinear_arith);
    vstd::arithmetic::div_mod::lemma_mod_multiples_basic(b, a);
}

/// A block is as aligned as its size and its folio allow.
pub proof fn law_block_aligned(p: PageView, addr: u64, align: int)
    requires
        p.wf(),
        p.is_block(addr),
        align > 0,
        p.block_size as int % align == 0,
        p.area as int % align == 0,
    ensures
        addr as int % align == 0,
{
    let bs = p.block_size as int;
    let n = p.off(addr) / bs;
    vstd::arithmetic::div_mod::lemma_fundamental_div_mod(p.off(addr), bs);
    vstd::arithmetic::div_mod::lemma_fundamental_div_mod(bs, align);
    vstd::arithmetic::div_mod::lemma_fundamental_div_mod(p.area as int, align);
    let x = bs / align;
    let y = p.area as int / align;
    let z = y + n * x;
    assert(addr == z * align) by (nonlinear_arith)
        requires
            addr - p.area == bs * n,
            bs == align * x,
            p.area == align * y,
            z == y + n * x,
    ;
    vstd::arithmetic::div_mod::lemma_mod_multiples_basic(z, align);
}

/// Every block that a request is served from has the request's alignment, in a
/// folio that is aligned to its own size.
pub proof fn law_malloc_aligned(
    shift: u32,
    req: Request,
    step: MallocStep,
    p: PageView,
    addr: u64,
)
    requires
        req.align <= 0x8000_0000_0000_0000,
        heap::entered(shift, req, step),
        step is Lock || step is Folio,
        p.wf(),
        p.page_shift == shift,
        p.block_size == step_block_size(step),
        p.area as int % os::folio_bytes(shift, p.order as int) == 0,
        p.is_block(addr),
    ensures
        addr as int % effective_align(req) == 0,
{
    law_block_fits(shift, req, step);
    let a = effective_align(req);
    let x = if req.align == 0 {
        1
    } else {
        req.align as int
    };
    vstd::arithmetic::power2::lemma2_to64();
    lemma_doubled(1, x, 0);
    let k = choose|k: nat| k <= 63 && #[trigger] vstd::arithmetic::power2::pow2(k) == a;
    let o = p.order as int;
    let f = os::folio_bytes(shift, o);
    p.lemma_block_inside(addr);
    let j = (shift + o) as nat;
    if k > j {
        vstd::arithmetic::power2::lemma_pow2_strictly_increases(j, k);
    }
    lemma_pow2_divides(k, j);
    vstd::arithmetic::power2::lemma_pow2_pos(k);
    let y = p.area as int / f;
    let c = f / a;
    vstd::arithmetic::div_mod::lemma_fundamental_div_mod(p.area as int, f);
    vstd::arithmetic::div_mod::lemma_fundamental_div_mod(f, a);
    let z = y * c;
    assert(p.area == z * a) by (nonlinear_arith)
        requires
            p.area == f * y,
            f == a * c,
            z == y * c,
    ;
    vstd::arithmetic::div_mod::lemma_mod_multiples_basic(z, a);
    law_block_aligned(p, addr, a);
}

/// A block given back under the heap lock is the next one that its page hands out,
/// if nothing waits to be collected.
pub proof fn law_last_in_first_out(a: PageView, b: PageView, c: PageView, ptr: u64, addr: u64)
    requires
        a.thread.len() == 0,
        b == a.pushed(b.mem, ptr),
        heap::block_taken(b, c, addr),
    ensures
        addr == ptr,
        c.local == a.local,
{
    assert(b.thread.reverse() + b.local =~= b.local);
    assert(b.local.drop_first() =~= a.local);
}

/// `2^k` is the smallest power of two that is at least `x`.
pub open spec fn least_pow2(k: nat, x: int) -> bool {
    &&& vstd::arithmetic::power2::pow2(k) >= x
    &&& k > 0 ==> vstd::arithmetic::power2::pow2((k - 1) as nat) < x
}

proof fn lemma_doubled_least(j: nat, k: nat, x: int)
    requires
        j <= k,
        least_pow2(k, x),
    ensures
        heap::doubled(vstd::arithmetic::power2::pow2(j) as int, x)
            == vstd::arithmetic::power2::pow2(k),
    decreases k - j,
{
    vstd::arithmetic::power2::lemma_pow2_pos(j);
    if vstd::arithmetic::power2::pow2(j) >= x {
        if j < k {
            if j < k - 1 {
                vstd::arithmetic::power2::lemma_pow2_strictly_increases(j, (k - 1) as nat);
            }
        }
    } else {
        vstd::arithmetic::power2::lemma_pow2_unfold(j + 1);
        lemma_doubled_least(j + 1, k, x);
    }
}

/// The order for a need is the first whose folio is large enough.
proof fn lemma_order_least(shift: u32, need: int, o: int)
    requires
        os::is_page_shift(shift),
        0 <= o <= 10,
    ensures
        o <= os::order_for(shift, need, o) <= 11,
        os::order_for(shift, need, o) <= 10 ==> os::folio_bytes(
            shift,
            os::order_for(shift, need, o),
        ) >= need,
        os::order_for(shift, need, o) > 10 ==> os::folio_bytes(shift, 10) < need,
        os::order_for(shift, need, o) > o ==> os::folio_bytes(
            shift,
            os::order_for(shift, need, o) - 1,
        ) < need,
    decreases 11 - o,
{
    if os::folio_bytes(shift, o) < need {
        if o < 10 {
            lemma_order_least(shift, need, o + 1);
        } else {
            assert(os::order_for(shift, need, 11) == 11);
        }
    }
}

/// A class that would do is not before the one that is chosen.
proof fn lemma_bin_first(need: int, align: int, i: int, b: int)
    requires
        0 <= i <= b < 15,
        heap::BINS@[b] >= need,
        heap::BINS@[b] as int % align == 0,
    ensures
        i <= heap::bin_from(need, align, i) <= b,
    decreases b - i,
{
    if i < b && !(heap::BINS@[i] >= need && heap::BINS@[i] as int % align == 0) {
        lemma_bin_first(need, align, i + 1, b);
    }
}

/// Class `b` has blocks for `need` bytes at multiples of `align`.
pub open spec fn class_fits(need: int, align: int, b: int) -> bool {
    0 <= b < 15 && heap::BINS@[b] >= need && heap::BINS@[b] as int % align == 0
}

proof fn lemma_bins_rise(a: int, b: int)
    requires
        0 <= a <= b < 15,
    ensures
        8 <= heap::BINS@[a] <= heap::BINS@[b] <= 8192,
    decreases b - a,
{
    if a < b {
        lemma_bins_rise(a, b - 1);
    }
}

/// The larger of the size and `2^k`.
pub open spec fn bytes_needed(size: u64, k: nat) -> int {
    if size < vstd::arithmetic::power2::pow2(k) {
        vstd::arithmetic::power2::pow2(k) as int
    } else {
        size as int
    }
}

/// How a request for some bytes begins, whatever its flags: it is refused only if the
/// largest folio is too small for it. It goes to a size class if one fits and is no
/// larger than two pages, and to the smallest such class. Otherwise it gets a folio of
/// its own, the smallest that is large enough, doubled below order 3. The heap lock may be
/// given up only if the caller may not sleep.
pub proof fn law_entry(shift: u32, req: Request, step: MallocStep, k: nat)
    requires
        os::is_page_shift(shift),
        req.align <= 0x8000_0000_0000_0000,
        req.size > 0,
        least_pow2(
            k,
            if req.align == 0 {
                1
            } else {
                req.align as int
            },
        ),
        heap::entered(shift, req, step),
    ensures
        ({
            let align = vstd::arithmetic::power2::pow2(k) as int;
            let need = bytes_needed(req.size, k);
            let page = vstd::arithmetic::power2::pow2(shift as nat) as int;
            let largest = vstd::arithmetic::power2::pow2((shift + 10) as nat) as int;
            let classed = need <= 2 * page && exists|b: int| #[trigger] class_fits(need, align, b);
            &&& step is Done <==> need > largest
            &&& step is Done ==> step == MallocStep::Done(0)
            &&& need <= largest ==> (step is Lock <==> classed) && (step is Folio <==> !classed)
            &&& step matches MallocStep::Lock { bin, may_fail } ==> {
                &&& may_fail == !req.flags.may_block
                &&& class_fits(need, align, bin as int)
                &&& forall|b: int| #[trigger]
                    class_fits(need, align, b) ==> heap::BINS@[bin as int] <= heap::BINS@[b]
            }
            &&& step matches MallocStep::Folio { target } ==> {
                &&& target.bin is None
                &&& need <= target.block_size
                &&& target.block_size as int % align == 0
                &&& target.block_size == page || target.block_size < 2 * need
                &&& exists|o: int|
                    0 <= o <= 10 && target.block_size == #[trigger] os::folio_bytes(shift, o)
                &&& target.order <= 10
                &&& os::folio_bytes(shift, target.order as int) == if target.block_size
                    < os::folio_bytes(shift, 3) {
                    2 * target.block_size
                } else {
                    target.block_size as int
                }
            }
        }),
{
    let x = if req.align == 0 {
        1
    } else {
        req.align as int
    };
    vstd::arithmetic::power2::lemma2_to64();
    vstd::arithmetic::power2::lemma2_to64_rest();
    if k > 63 {
        if k > 64 {
            vstd::arithmetic::power2::lemma_pow2_strictly_increases(63, (k - 1) as nat);
        }
    }
    lemma_doubled_least(0, k, x);
    let align = vstd::arithmetic::power2::pow2(k) as int;
    if k < 63 {
        vstd::arithmetic::power2::lemma_pow2_strictly_increases(k, 63);
    }
    vstd::arithmetic::power2::lemma_pow2_pos(k);
    let al = align as u64;
    let need = if req.size < al {
        al
    } else {
        req.size
    };
    assert(need == bytes_needed(req.size, k));
    let want = heap::block_need(req.size, al) as int;
    os::lemma_folio_bytes(shift, 0);
    os::lemma_folio_bytes(shift, 1);
    heap::lemma_bin_from(want, align, 0);
    let i = heap::bin_from(want, align, 0);
    assert forall|b: int| #[trigger] class_fits(bytes_needed(req.size, k), align, b) implies i <= b
        && heap::BINS@[i] <= heap::BINS@[b] by {
        lemma_bins_rise(b, b);
        lemma_bin_first(want, align, 0, b);
        lemma_bins_rise(i, b);
    }
    match heap::bin_of(shift, req.size, al) {
        Some(bin) => {
            assert(class_fits(bytes_needed(req.size, k), align, bin as int));
            lemma_bins_rise(bin as int, bin as int);
        },
        None => {
            if need <= 2 * os::folio_bytes(shift, 0) && want != need {
                assert(want == 8);
            }
            let o = os::order_for(shift, need as int, 0);
            lemma_order_least(shift, need as int, 0);
            if o <= 10 {
                os::lemma_folio_bytes(shift, o);
                let bytes = os::folio_bytes(shift, o);
                if o > 0 {
                    os::lemma_folio_bytes(shift, o - 1);
                }
                law_page_order(shift, bytes);
                let j = (shift + o) as nat;
                if k > j {
                    vstd::arithmetic::power2::lemma_pow2_strictly_increases(j, k);
                }
                lemma_pow2_divides(k, j);
            }
        },
    }
}

/// A request for no bytes fails at once.
pub proof fn law_entry_nothing(shift: u32, req: Request, step: MallocStep)
    requires
        req.size == 0,
        heap::entered(shift, req, step),
    ensures
        step == MallocStep::Done(0),
{
}

/// The folio for blocks of a size can be had unless the largest is too small. It holds
/// a block, and it is the smallest that does, or the next if that is small too and the
/// smallest holds one block only.
pub proof fn law_page_order(shift: u32, size: int)
    requires
        os::is_page_shift(shift),
        0 < size,
    ensures
        ({
            let o = page::page_order(shift, size);
            &&& 0 <= o
            &&& o <= 10 <==> size <= os::folio_bytes(shift, 10)
            &&& o <= 10 ==> size <= os::folio_bytes(shift, o)
            &&& 0 < o <= 10 ==> os::folio_bytes(shift, o - 1) < size || (o <= 3
                && os::folio_bytes(shift, o - 1) < 2 * size)
            &&& o < 3 ==> 2 * size <= os::folio_bytes(shift, o)
            &&& 1 < o <= 10 ==> os::folio_bytes(shift, o - 2) < size
        }),
{
    lemma_order_least(shift, size, 0);
    let q = os::order_for(shift, size, 0);
    os::lemma_folio_bytes(shift, 10);
    if q <= 10 {
        os::lemma_folio_bytes(shift, q);
        let f = os::folio_bytes(shift, q);
        if q > 0 {
            os::lemma_folio_bytes(shift, q - 1);
        }
        if q > 1 {
            os::lemma_folio_bytes(shift, q - 2);
        }
        vstd::arithmetic::div_mod::lemma_fundamental_div_mod(f, size);
        let d = f / size;
        assert(d < 2 <==> f < 2 * size) by {
            if d >= 2 {
                assert(size * d >= size * 2) by (nonlinear_arith)
                    requires
                        d >= 2,
                        size > 0,
                ;
            } else {
                assert(size * d <= size) by (nonlinear_arith)
                    requires
                        d <= 1,
                        size > 0,
                ;
            }
        }
    }
}

/// Without an alignment to mind, less than half of a block is wasted.
pub proof fn law_little_waste(n: int)
    requires
        8 <= n <= 8192,
    ensures
        exists|b: int| #[trigger] class_fits(n, 1, b) && heap::BINS@[b] < 2 * n,
{
    let b: int = if n <= 8 {
        0
    } else if n <= 16 {
        1
    } else if n <= 24 {
        2
    } else if n <= 32 {
        3
    } else if n <= 48 {
        4
    } else if n <= 64 {
        5
    } else if n <= 96 {
        6
    } else if n <= 128 {
        7
    } else if n <= 192 {
        8
    } else if n <= 256 {
        9
    } else if n <= 512 {
        10
    } else if n <= 1024 {
        11
    } else if n <= 2048 {
        12
    } else if n <= 4096 {
        13
    } else {
        14
    };
    assert(class_fits(n, 1, b) && heap::BINS@[b] < 2 * n);
}

/// Each heap has a place of its own for each size class.
pub proof fn law_slots_apart(cpu: u64, bin: usize, other: u64, class: usize)
    requires
        bin < 16,
        class < 16,
    ensures
        0 <= heap::slot_of(cpu, bin) < 1024,
        heap::slot_of(cpu, bin) == heap::slot_of(other, class) <==> cpu % 64 == other % 64 && bin
            == class,
{
}

/// A block of a size class comes from the current page if that has one, else from the
/// newest page of the class that has; a new page is wanted only if none has.
pub proof fn law_pick(v: MiView, s: int)
    requires
        v.wf(),
        0 <= s < 1024,
    ensures
        ({
            let b = v.bins[s];
            match v.pick(s) {
                Some(k) => {
                    &&& v.in_class(k, s)
                    &&& heap::has_free(v.pages[k])
                    &&& b.current == Some(k) || b.list.contains(k)
                    &&& b.current matches Some(c) ==> heap::has_free(v.pages[c]) ==> k == c
                    &&& b.current != Some(k) ==> exists|i: int|
                        0 <= i < b.list.len() && #[trigger] b.list[i] == k && forall|j: int|
                            i < j < b.list.len() ==> !heap::has_free(v.pages[#[trigger] b.list[j]])
                },
                None => {
                    &&& b.current matches Some(c) ==> !heap::has_free(v.pages[c])
                    &&& forall|i: int|
                        0 <= i < b.list.len() ==> !heap::has_free(v.pages[#[trigger] b.list[i]])
                },
            }
        }),
{
    let b = v.bins[s];
    assert(v.bin_ok(s));
    lemma_newest(v.pages, b.list, b.list.len() as int);
}

proof fn lemma_newest(pages: Seq<PageView>, list: Seq<int>, n: int)
    requires
        0 <= n <= list.len(),
    ensures
        match heap::newest(pages, list, n) {
            Some(k) => heap::has_free(pages[k]) && exists|i: int|
                0 <= i < n && #[trigger] list[i] == k && forall|j: int|
                    i < j < n ==> !heap::has_free(pages[#[trigger] list[j]]),
            None => forall|i: int| 0 <= i < n ==> !heap::has_free(pages[#[trigger] list[i]]),
        },
    decreases n,
{
    if n > 0 {
        if heap::has_free(pages[list[n - 1]]) {
            assert(list[n - 1] == list[n - 1]);
        } else {
            lemma_newest(pages, list, n - 1);
        }
    }
}

/// A request that goes to a size class gets an object that is large enough, was not
/// handed out, and is now, if a page of the class has a free block.
pub proof fn law_request_served(
    req: Request,
    step: MallocStep,
    v: MiView,
    w: MiView,
    cpu: u64,
    k: int,
    addr: u64,
)
    requires
        v.wf(),
        v.apart(),
        req.align <= 0x8000_0000_0000_0000,
        req.size > 0,
        heap::entered(v.page_shift, req, step),
        step is Lock,
        v.pick(heap::slot_of(cpu, step->Lock_bin)) == Some(k),
        v.takes(w, heap::slot_of(cpu, step->Lock_bin), k, addr),
    ensures
        !v.live(addr),
        w.live(addr),
        w.usable(addr) >= req.size,
        addr != 0,
{
    let s = heap::slot_of(cpu, step->Lock_bin);
    law_block_fits(v.page_shift, req, step);
    law_slots_apart(cpu, step->Lock_bin, cpu, step->Lock_bin);
    law_pick(v, s);
    law_taken_block(v, w, s, k, addr);
    assert(s % 16 == step->Lock_bin as int);
}

/// A request with a folio of its own gets the whole folio's first block.
pub proof fn law_own_folio(
    v: MiView,
    w: MiView,
    step: MallocStep,
    req: Request,
    target: Target,
    folio: Folio,
    meta: u64,
    arena: MetaView,
)
    requires
        target.bin is None,
        v.made(w, step, req, target, folio, meta, arena),
    ensures
        step == MallocStep::Done(folio.area),
        w.pages.len() == v.pages.len() + 1,
        w.pages.drop_last() =~= v.pages,
        w.pages.last().allocated(folio.area),
        w.pages.last().block_size == target.block_size,
        w.pages.last().area == folio.area,
        w.pages.last().folio == folio.page,
        w.pages.last().cache == req.cache,
        w.bins == v.bins,
{
    let addr = step->Done_0;
    let p = choose|p: PageView| #[trigger]
        heap::fresh_page(
            p,
            v.page_shift,
            target,
            folio,
            meta,
            page::page_key(meta, v.key_seq),
            req.cache,
        ) && heap::block_taken(p, w.pages.last(), addr);
    assert(p.thread.reverse() + p.local =~= p.local);
    assert(p.local[0] == folio.area);
}

/// A new page is cut into as many blocks as fit, all free, and hands them out from the
/// lowest up.
pub proof fn law_new_page(
    p: PageView,
    q: PageView,
    shift: u32,
    target: Target,
    folio: Folio,
    meta: u64,
    key: u64,
    cache: u64,
    addr: u64,
)
    requires
        heap::fresh_page(p, shift, target, folio, meta, key, cache),
        heap::block_taken(p, q, addr),
    ensures
        addr == folio.area,
        p.local.len() == p.capacity,
        forall|i: int|
            0 <= i < p.capacity ==> #[trigger] p.local[i] as int == folio.area + i * p.block_size,
        forall|x: u64| #[trigger] p.is_block(x) ==> p.is_free(x),
        p.capacity * p.block_size <= p.mem.len() < (p.capacity + 1) * p.block_size,
{
    assert forall|i: int| 0 <= i < p.capacity implies #[trigger] p.local[i] as int == folio.area
        + i * p.block_size by {
        p.lemma_nth_block(i);
        assert(0 <= i * p.block_size) by (nonlinear_arith)
            requires
                0 <= i,
                p.block_size >= 0,
        ;
    }
    assert(p.thread.reverse() + p.local =~= p.local);
    assert(p.local[0] == folio.area);
    let bs = p.block_size as int;
    let n = p.mem.len() as int;
    vstd::arithmetic::div_mod::lemma_fundamental_div_mod(n, bs);
    assert(p.capacity * p.block_size <= n < (p.capacity + 1) * p.block_size) by (nonlinear_arith)
        requires
            n == bs * p.capacity + n % bs,
            0 <= n % bs < bs,
            bs == p.block_size,
    ;
    assert forall|x: u64| #[trigger] p.is_block(x) implies p.is_free(x) by {
        let i = p.off(x) / bs;
        p.lemma_block_inside(x);
        vstd::arithmetic::div_mod::lemma_fundamental_div_mod(p.off(x), bs);
        assert(x == p.area + i * bs) by (nonlinear_arith)
            requires
                x - p.area == bs * i,
        ;
        assert(p.local[i] == x);
    }
}

/// An address is given back exactly if a block starts there that does not look free.
/// A refusal changes nothing.
pub proof fn law_free_outcome(v: MiView, w: MiView, ptr: u64, locked: bool, r: bool)
    requires
        v.wf(),
        v.freed(w, ptr, locked, r),
    ensures
        ptr == 0 ==> r && w == v,
        !r ==> w == v,
        r && ptr != 0 ==> v.live(ptr) && !w.live(ptr),
        v.live(ptr) && ptr != 0 && !r ==> v.pages[heap::page_of(v.pages, ptr, 0)].canary(ptr)
            == page::FREED_CANARY,
        forall|x: u64| x != ptr && #[trigger] v.live(x) ==> w.live(x),
        forall|x: u64| #[trigger] w.live(x) ==> v.live(x),
{
    let k = heap::page_of(v.pages, ptr, 0);
    heap::lemma_page_of_at(v.pages, ptr, 0);
    if r && ptr != 0 {
        let a = v.pages[k];
        assert forall|x: u64| true implies #[trigger] w.live(x) == (v.live(x) && x != ptr) by {
            heap::lemma_page_of_at(v.pages, x, 0);
            heap::lemma_page_of_same(v.pages, w.pages, x, 0);
            page::lemma_pushed_contains(a.local, ptr, x);
            page::lemma_pushed_contains(a.thread, ptr, x);
        }
    }
}

/// Giving back one object leaves the bytes of every other alone.
pub proof fn law_free_keeps(v: MiView, w: MiView, ptr: u64, locked: bool, r: bool, other: u64)
    requires
        v.wf(),
        v.freed(w, ptr, locked, r),
        ptr != other,
        v.live(other),
    ensures
        w.live(other),
        w.usable(other) == v.usable(other),
        forall|i: int| 0 <= i < v.usable(other) ==> #[trigger] w.byte(other, i) == v.byte(other, i),
{
    heap::lemma_free_keeps(v, w, ptr, locked, r, other);
    let k = heap::page_of(v.pages, ptr, 0);
    heap::lemma_page_of_at(v.pages, ptr, 0);
    if r && ptr != 0 {
        let j = heap::page_of(v.pages, other, 0);
        heap::lemma_page_of_at(v.pages, other, 0);
        heap::lemma_page_of_same(v.pages, w.pages, other, 0);
        assert(w.pages[j].block_size == v.pages[j].block_size) by {
            if j != k {
                assert(w.pages[j] == v.pages[j]);
            }
        }
    }
}

/// An object has as many bytes as the blocks of the page around it, and a foreign
/// address none.
pub proof fn law_usable(v: MiView, ptr: u64, k: int)
    requires
        v.apart(),
        0 <= k < v.pages.len(),
        v.pages[k].contains(ptr),
        ptr != 0,
    ensures
        v.usable(ptr) == v.pages[k].block_size,
{
    lemma_unique_page(v, ptr, k);
}

/// An address in no page, and the null pointer, has no usable bytes and nothing there is
/// handed out or given back.
pub proof fn law_foreign(v: MiView, w: MiView, ptr: u64, locked: bool, r: bool)
    requires
        forall|k: int| 0 <= k < v.pages.len() ==> !(#[trigger] v.pages[k]).contains(ptr),
        v.freed(w, ptr, locked, r),
    ensures
        v.usable(ptr) == 0,
        !v.live(ptr),
        w == v,
        r <==> ptr == 0,
        v.usable(0) == 0,
{
    lemma_no_page(v.pages, ptr, 0);
}

proof fn lemma_no_page(pages: Seq<PageView>, addr: u64, from: int)
    requires
        0 <= from <= pages.len(),
        forall|k: int| from <= k < pages.len() ==> !(#[trigger] pages[k]).contains(addr),
    ensures
        heap::page_of(pages, addr, from) == pages.len(),
    decreases pages.len() - from,
{
    if from < pages.len() {
        lemma_no_page(pages, addr, from + 1);
    }
}

/// Under the heap lock a block goes to the front of what its page hands out; without it the
/// block waits to be collected. Nothing else changes but what is in the block.
pub proof fn law_free_where(v: MiView, w: MiView, ptr: u64, locked: bool, k: int)
    requires
        v.wf(),
        v.apart(),
        0 <= k < v.pages.len(),
        v.pages[k].contains(ptr),
        ptr != 0,
        v.freed(w, ptr, locked, true),
    ensures
        ({
            let a = v.pages[k];
            let b = w.pages[k];
            &&& locked ==> b.local == seq![ptr] + a.local && b.thread == a.thread
            &&& !locked ==> b.thread == seq![ptr] + a.thread && b.local == a.local
            &&& w.pages.len() == v.pages.len()
            &&& forall|j: int|
                0 <= j < v.pages.len() && j != k ==> #[trigger] w.pages[j] == v.pages[j]
            &&& w.bins == v.bins
            &&& w.meta == v.meta
            &&& w.key_seq == v.key_seq
            &&& b.area == a.area && b.folio == a.folio && b.block_size == a.block_size
        }),
{
    lemma_unique_page(v, ptr, k);
}

/// Blocks that wait to be collected are handed out before the others, in the order in which
/// they were given back.
pub proof fn law_waiting_first(a: PageView, b: PageView, addr: u64)
    requires
        a.thread.len() > 0,
        heap::block_taken(a, b, addr),
    ensures
        addr == a.thread.last(),
        b.local.len() == a.local.len() + a.thread.len() - 1,
        forall|i: int|
            0 <= i < a.thread.len() - 1 ==> #[trigger] b.local[i] == a.thread[a.thread.len() - 2
                - i],
        forall|i: int|
            0 <= i < a.local.len() ==> #[trigger] a.local[i] == b.local[a.thread.len() - 1 + i],
        b.thread.len() == 0,
{
    let c = a.thread.reverse() + a.local;
    assert(c[0] == a.thread.last());
    assert forall|i: int| 0 <= i < a.local.len() implies #[trigger] a.local[i]
        == b.local[a.thread.len() - 1 + i] by {
        assert(c[a.thread.len() + i] == a.local[i]);
    }
}

/// The size class for some bytes is the smallest one that is large enough and keeps the
/// alignment; there is none if two pages are too small, or if no class would do.
pub proof fn law_bin(shift: u32, size: u64, align: u64, by: int)
    requires
        by == if align == 0 {
            1
        } else {
            align as int
        },
    ensures
        ({
            let small = size <= 2 * os::folio_bytes(shift, 0) && align <= 2 * os::folio_bytes(
                shift,
                0,
            ) && 8 <= 2 * os::folio_bytes(shift, 0);
            match heap::bin_of(shift, size, align) {
                Some(b) => {
                    &&& small
                    &&& class_fits(size as int, by, b as int)
                    &&& heap::BINS@[b as int] >= align
                    &&& forall|c: int| #[trigger]
                        class_fits(size as int, by, c) && heap::BINS@[c] >= align ==> b <= c
                },
                None => !small || forall|c: int| #[trigger]
                    class_fits(size as int, by, c) ==> heap::BINS@[c] < align,
            }
        }),
{
    let need = heap::block_need(size, align) as int;
    heap::lemma_bin_from(need, by, 0);
    assert forall|c: int| #[trigger]
        class_fits(size as int, by, c) && heap::BINS@[c] >= align implies heap::bin_from(
        need,
        by,
        0,
    ) <= c by {
        lemma_bins_rise(c, c);
        lemma_bin_first(need, by, 0, c);
    }
}

/// The next power of two is one, is large enough, and its half is not.
pub proof fn law_next_power_of_two(x: int, k: nat)
    requires
        least_pow2(k, x),
    ensures
        heap::doubled(1, x) == vstd::arithmetic::power2::pow2(k),
{
    vstd::arithmetic::power2::lemma2_to64();
    lemma_doubled_least(0, k, x);
}

/// New heaps have nothing to hand out, hold no address, and take their descriptors one
/// after the other from the chunk that they were given.
pub proof fn law_fresh_heaps(shift: u32, boot: u64, s: int, x: u64)
    requires
        boot > 0,
        boot + 65536 <= u64::MAX,
        0 <= s < 1024,
    ensures
        ({
            let v = MiView::fresh(shift, boot);
            &&& v.page_shift == shift
            &&& v.pick(s) is None
            &&& !v.live(x)
            &&& v.usable(x) == 0
            &&& v.meta.has_room()
            &&& v.meta.taken().1 == boot
            &&& v.meta.end - boot == 65536
        }),
{
}

/// Moving an object carries its bytes over, keeps every third object as it was, and gives
/// the old block back.
pub proof fn law_moved(
    v: MiView,
    w: MiView,
    ptr: u64,
    new: u64,
    new_size: u64,
    locked: bool,
    i: int,
    other: u64,
)
    requires
        v.wf(),
        v.apart(),
        ptr != 0,
        new != 0,
        new != ptr,
        v.live(ptr),
        v.live(new),
        new_size <= v.usable(new),
        v.moved(w, ptr, new, new_size, locked),
    ensures
        w.live(new),
        w.usable(new) == v.usable(new),
        0 <= i < new_size && i < v.usable(ptr) ==> w.byte(new, i) == v.byte(ptr, i),
        new_size <= i < v.usable(new) ==> w.byte(new, i) == v.byte(new, i),
        v.live(other) && other != ptr && other != new && 0 <= i < v.usable(other) ==> w.live(other)
            && w.byte(other, i) == v.byte(other, i),
        !v.pages[heap::page_of(v.pages, ptr, 0)].looks_free(ptr) ==> !w.live(ptr),
{
    let n = v.carried(ptr, new_size);
    let (u, f) = choose|u: MiView, f: bool|
        #![trigger u.freed(w, ptr, locked, f)]
        {
            &&& v.written(u, new, 0, n as int)
            &&& u.freed(w, ptr, locked, f)
            &&& forall|j: int| 0 <= j < n ==> #[trigger] u.byte(new, j) == v.byte(ptr, j)
        };
    let k = heap::page_of(v.pages, new, 0);
    heap::lemma_page_of_at(v.pages, new, 0);
    heap::lemma_page_of_at(v.pages, ptr, 0);
    heap::lemma_page_of_at(v.pages, other, 0);
    heap::lemma_page_of_same(v.pages, u.pages, new, 0);
    heap::lemma_page_of_same(v.pages, u.pages, ptr, 0);
    heap::lemma_page_of_same(v.pages, u.pages, other, 0);
    let a = v.pages[k];
    a.lemma_block_inside(new);
    assert(u.wf()) by {
        assert forall|j: int| 0 <= j < u.pages.len() implies u.page_ok(#[trigger] u.pages[j]) by {
            if j != k {
                assert(u.pages[j] == v.pages[j]);
            } else {
                assert(v.page_ok(v.pages[k]));
            }
        }
        assert forall|s: int| 0 <= s < 1024 implies #[trigger] u.bin_ok(s) by {
            assert(v.bin_ok(s));
            assert forall|j: int| 0 <= j < u.bins[s].list.len() implies u.in_class(
                #[trigger] u.bins[s].list[j],
                s,
            ) by {
                assert(v.in_class(v.bins[s].list[j], s));
            }
        }
    }
    law_free_outcome(u, w, ptr, locked, f);
    law_free_keeps(u, w, ptr, locked, f, new);
    if heap::page_of(v.pages, ptr, 0) == k {
        assert(mem::same_but(u.pages[k].mem, a.mem, a.off(new), a.block_size as int));
        a.lemma_other_block(u.pages[k], new, ptr);
    } else {
        assert(u.pages[heap::page_of(v.pages, ptr, 0)] == v.pages[heap::page_of(v.pages, ptr, 0)]);
    }
    if 0 <= i < n {
        assert(u.byte(new, i) == v.byte(ptr, i));
        assert(w.byte(new, i) == u.byte(new, i));
    }
    if new_size <= i < v.usable(new) {
        assert(u.pages[k].mem[a.off(new) + i] == a.mem[a.off(new) + i]);
        assert(w.byte(new, i) == u.byte(new, i));
    }
    if v.live(other) && other != ptr && other != new && 0 <= i < v.usable(other) {
        let j = heap::page_of(v.pages, other, 0);
        if j == k {
            a.lemma_blocks_apart(new, other);
            a.lemma_block_inside(other);
            assert(u.pages[k].mem[a.off(other) + i] == a.mem[a.off(other) + i]);
        } else {
            assert(u.pages[j] == v.pages[j]);
        }
        law_free_keeps(u, w, ptr, locked, f, other);
        assert(w.byte(other, i) == u.byte(other, i));
    }
}

/// A descriptor lies in what is left of the chunk, and the next one behind it.
pub proof fn law_meta_bump(v: MetaView)
    requires
        v.wf(),
        v.has_room(),
        v.free.len() == 0,
    ensures
        v.taken().1 == v.bump,
        v.taken().0.bump == v.bump + 80,
        v.taken().0.bump <= v.end,
        v.taken().0.end == v.end,
        v.taken().0.wf(),
{
}

/// A new chunk is where descriptors come from next, and those given back are kept.
pub proof fn law_meta_refilled(v: MetaView, chunk: u64, bytes: u64)
    requires
        chunk > 0,
        80 <= bytes,
        chunk + bytes <= u64::MAX,
        v.wf(),
    ensures
        ({
            let w = v.refilled(chunk, bytes);
            &&& w.wf()
            &&& w.has_room()
            &&& w.free == v.free
            &&& w.end - w.bump == bytes
            &&& v.free.len() == 0 ==> w.taken().1 == chunk
        }),
{
}

/// A descriptor that was given back is the next one to be taken.
pub proof fn law_meta_reused(v: MetaView, meta: u64)
    requires
        v.wf(),
        meta != 0,
    ensures
        v.returned(meta).has_room(),
        v.returned(meta).taken() == (v, meta),
{
    assert(v.free.push(meta).drop_last() =~= v.free);
}

/// Keys are odd, so none is zero.
pub proof fn law_key_odd(meta: u64, seq: u64)
    ensures
        page::page_key(meta, seq) & 1 == 1,
        page::next_seq(seq) != seq,
{
    let x = meta.wrapping_mul(0x9E37_79B9_7F4A_7C15).wrapping_add(seq);
    assert((x | 1) & 1 == 1) by (bit_vector);
}

/// An object is asked for with its size and flags, and with the larger of its own and
/// the least alignment. An object that exists is resized, or freed if nothing is to be
/// left of it. Nothing is asked for an object without size, whose address is its
/// alignment.
pub proof fn law_kmalloc_begun(
    min_align: u64,
    ptr: Option<u64>,
    layout: Layout,
    old_layout: Layout,
    flags: Flags,
    nid: NumaNode,
)
    ensures
        ({
            let step = mi::kmalloc_begun(min_align, ptr, layout, old_layout, flags, nid);
            let exists_already = ptr is Some && old_layout.size != 0;
            &&& step is Malloc <==> layout.size != 0 && !exists_already
            &&& step is Realloc <==> layout.size != 0 && exists_already
            &&& step is FreeThen <==> layout.size == 0 && exists_already
            &&& step matches KmallocStep::Malloc(req) ==> {
                &&& req.size == layout.size
                &&& req.align >= min_align
                &&& req.align >= layout.align
                &&& req.align == min_align || req.align == layout.align
                &&& req.flags == flags
                &&& req.nid == nid.0
                &&& req.cache == 0
            }
            &&& step matches KmallocStep::Realloc { ptr: p, size, align } ==> {
                &&& Some(p) == ptr
                &&& size == layout.size
                &&& align >= min_align
                &&& align >= layout.align
                &&& align == min_align || align == layout.align
            }
            &&& step matches KmallocStep::FreeThen(p, buffer) ==> Some(p) == ptr && buffer.len == 0
                && buffer.addr == layout.align
            &&& step matches KmallocStep::Done(buffer) ==> buffer.len == 0 && buffer.addr
                == layout.align
        }),
{
}

/// With the flag that asks for it, a new object is zero throughout, and one that grew
/// is zero behind its old size and unchanged before it. Without the flag, and in every
/// other object, no byte changes.
pub proof fn law_kmalloc_zeroes(
    v: MiView,
    w: MiView,
    raw: u64,
    ptr: Option<u64>,
    layout: Layout,
    old_layout: Layout,
    flags: Flags,
    i: int,
)
    requires
        v.wf(),
        raw != 0,
        v.live(raw),
        layout.size <= v.usable(raw),
        mi::kmalloc_ended(v, w, raw, ptr, layout, old_layout, flags),
        0 <= i < v.usable(raw),
    ensures
        !flags.zero ==> w == v,
        flags.zero && ptr is None && i < layout.size ==> w.byte(raw, i) == 0,
        flags.zero && old_layout.size <= i < layout.size ==> w.byte(raw, i) == 0,
        ptr is Some && i < old_layout.size ==> w.byte(raw, i) == v.byte(raw, i),
        i >= layout.size ==> w.byte(raw, i) == v.byte(raw, i),
{
    let k = heap::page_of(v.pages, raw, 0);
    heap::lemma_page_of_at(v.pages, raw, 0);
    let a = v.pages[k];
    a.lemma_block_inside(raw);
    if w != v {
        heap::lemma_page_of_same(v.pages, w.pages, raw, 0);
        assert(w.pages[k].mem.len() == a.mem.len());
        assert(ptr is Some && i < old_layout.size || i >= layout.size ==> w.pages[k].mem[a.off(raw)
            + i] == a.mem[a.off(raw) + i]);
    }
}

/// An object with a size is given back, and one without is not; either way nothing is
/// left of it.
pub proof fn law_kmalloc_freeing(
    ptr: u64,
    layout: Layout,
    min_align: u64,
    flags: Flags,
    nid: NumaNode,
)
    ensures
        mi::kmalloc_freeing(ptr, layout) is FreeThen <==> layout.size > 0,
        mi::kmalloc_freeing(ptr, layout) is Done <==> layout.size == 0,
        mi::kmalloc_freeing(ptr, layout) matches KmallocStep::FreeThen(p, b) ==> p == ptr && b.len
            == 0,
        mi::kmalloc_freeing(ptr, layout) == mi::kmalloc_begun(
            min_align,
            Some(ptr),
            Layout { size: 0, align: 1 },
            layout,
            flags,
            nid,
        ),
{
}

/// With the flag that asks for it, the bytes that were asked for are zero; no other byte
/// changes, and none without the flag.
pub proof fn law_mi_zeroes(v: MiView, w: MiView, p: u64, size: u64, flags: Flags, i: int)
    requires
        v.wf(),
        p != 0,
        v.live(p),
        size <= v.usable(p),
        mi::mi_ended(v, w, p, size, flags),
        0 <= i < v.usable(p),
    ensures
        !flags.zero ==> w == v,
        flags.zero && i < size ==> w.byte(p, i) == 0,
        i >= size ==> w.byte(p, i) == v.byte(p, i),
        w.live(p),
        w.usable(p) == v.usable(p),
{
    if w != v {
        let k = heap::page_of(v.pages, p, 0);
        heap::lemma_page_of_at(v.pages, p, 0);
        heap::lemma_page_of_same(v.pages, w.pages, p, 0);
        let a = v.pages[k];
        a.lemma_block_inside(p);
        if i >= size {
            assert(w.pages[k].mem[a.off(p) + i] == a.mem[a.off(p) + i]);
        }
    }
}

/// Some bytes are asked for as they were requested; no bytes have a fixed address.
pub proof fn law_mi_begun(size: u64, align: u64, flags: Flags, nid: i32, cache: u64)
    ensures
        ({
            let step = mi::mi_begun(size, align, flags, nid, cache);
            &&& step is Malloc <==> size > 0
            &&& step matches MiStep::Done(p) ==> p == mi::ZERO_SIZE_PTR
            &&& step matches MiStep::Malloc(req) ==> {
                &&& req.size == size
                &&& req.align >= 1
                &&& align > 0 ==> req.align == align
                &&& req.flags == flags
                &&& req.nid == nid
                &&& req.cache == cache
            }
        }),
{
}

/// The null pointer and every address up to that of objects without size can be freed at
/// any time, and have no usable bytes; every other address is the heap's.
pub proof fn law_mi_freed(v: MiView, w: MiView, ptr: u64, locked: bool, r: bool)
    requires
        mi::mi_freed(v, w, ptr, locked, r),
    ensures
        ptr <= 16 ==> r && w == v && mi::mi_usable(v, ptr) == 0,
        ptr > 16 ==> v.freed(w, ptr, locked, r) && mi::mi_usable(v, ptr) == v.usable(ptr),
{
}

/// A block is kept exactly if it is large enough for its new size and aligned. A block
/// that is moved, and a new one, are asked for with the new size and alignment.
pub proof fn law_resize(
    v: MiView,
    ptr: u64,
    new_size: u64,
    align: u64,
    flags: Flags,
    nid: i32,
)
    requires
        align > 0,
    ensures
        ({
            let step = v.resize(ptr, new_size, align, flags, nid);
            let kept = ptr != 0 && 0 < new_size <= v.usable(ptr) && ptr as int % align as int == 0;
            &&& step is Done <==> kept
            &&& step is Malloc <==> ptr == 0
            &&& step is Free <==> ptr != 0 && new_size == 0
            &&& step matches ReallocStep::Done(p) ==> p == ptr
            &&& step matches ReallocStep::Malloc(req) ==> req == (Request {
                size: new_size,
                align,
                flags,
                nid,
                cache: 0,
            })
            &&& step matches ReallocStep::Move(req) ==> req == (Request {
                size: new_size,
                align,
                flags,
                nid,
                cache: 0,
            })
        }),
{
}

/// Resizing by address does what resizing a block does, where there is one.
pub proof fn law_mi_resized(
    v: MiView,
    ptr: u64,
    new_size: u64,
    align: u64,
    flags: Flags,
    nid: i32,
)
    requires
        align > 0,
    ensures
        ({
            let step = mi::mi_resized(v, ptr, new_size, align, flags, nid);
            &&& new_size == 0 ==> step == MiReallocStep::FreeThen(mi::ZERO_SIZE_PTR)
            &&& new_size > 0 && ptr <= 16 ==> (step matches MiReallocStep::Malloc(
                req,
            ) && mi::mi_begun(new_size, align, flags, nid, 0) == MiStep::Malloc(req))
            &&& new_size > 0 && ptr > 16 ==> step == MiReallocStep::Heap(
                v.resize(ptr, new_size, align, flags, nid),
            )
        }),
{
}

/// A move carries over as many bytes as both sizes allow.
pub proof fn law_carried(v: MiView, ptr: u64, new_size: u64)
    ensures
        v.carried(ptr, new_size) <= new_size,
        v.carried(ptr, new_size) <= v.usable(ptr),
        v.carried(ptr, new_size) == new_size || v.carried(ptr, new_size) == v.usable(ptr),
{
}

/// How a request goes on. It fails only where the lock or a folio could not be had, and
/// then no folio is kept. A class whose pages have a free block hands one out, and asks
/// for a folio of the class otherwise. A folio that came is cut into a page, which is
/// linked under the lock, and its lowest block handed out.
pub proof fn law_malloc_goes_on(
    v: MiView,
    w: MiView,
    req: Request,
    event: MallocEvent,
    r: MallocStep,
)
    requires
        v.wf(),
        event.ok(v.page_shift),
        v.malloc_next(w, req, event, r),
    ensures
        match event {
            MallocEvent::Enter => w == v,
            MallocEvent::Locked { bin, cpu: None } => w == v && r == MallocStep::Done(0),
            MallocEvent::Locked { bin, cpu: Some(cpu) } => {
                let b = v.bins[heap::slot_of(cpu, bin)];
                let some_free = (b.current matches Some(c) && heap::has_free(v.pages[c])) || exists|
                    i: int,
                |
                    0 <= i < b.list.len() && heap::has_free(v.pages[#[trigger] b.list[i]]);
                if some_free {
                    &&& r matches MallocStep::Done(addr)
                    &&& addr != 0
                    &&& exists|k: int|
                        v.pick(heap::slot_of(cpu, bin)) == Some(k) && #[trigger] v.takes(
                            w,
                            heap::slot_of(cpu, bin),
                            k,
                            addr,
                        )
                } else {
                    &&& w == v
                    &&& r matches MallocStep::Folio { target }
                    &&& target.bin == Some(bin)
                    &&& target.block_size == heap::BINS@[bin as int]
                    &&& target.order <= 10
                    &&& target.order == page::page_order(v.page_shift, target.block_size as int)
                    &&& target.block_size <= os::folio_bytes(v.page_shift, target.order as int)
                }
            },
            MallocEvent::Folio { target, got: None } => w == v && r == MallocStep::Done(0),
            MallocEvent::Folio { target, got: Some(folio) } => if v.meta.free.len() > 0
                || v.meta.end - v.meta.bump >= 80 {
                &&& w.pages.len() <= v.pages.len() + 1
                &&& w.bins == v.bins
                &&& w.meta == v.meta.taken().0
                &&& w.key_seq == page::next_seq(v.key_seq)
                &&& r matches MallocStep::Relock { page, .. } ==> page@.meta == v.meta.taken().1
                    && w.pages == v.pages
                &&& r is Done ==> w.pages.last().meta == v.meta.taken().1
                &&& page_begun(r, target, folio, req)
            } else {
                w == v && r == (MallocStep::Chunk { target, folio })
            },
            MallocEvent::Chunk { target, folio, chunk: None } => {
                &&& w == v
                &&& r == (MallocStep::GiveBack { head: folio.page, order: target.order })
            },
            MallocEvent::Chunk { target, folio, chunk: Some(chunk) } => {
                &&& page_begun(r, target, folio, req)
                &&& w.meta.bump == chunk + 80
                &&& w.meta.end == chunk + os::folio_bytes(v.page_shift, 4)
            },
            MallocEvent::Relocked { bin, page, cpu: None } => {
                &&& r == (MallocStep::GiveBack { head: page@.folio, order: page@.order })
                &&& w.pages == v.pages
                &&& w.bins == v.bins
                &&& w.meta.free == v.meta.free.push(page@.meta)
            },
            MallocEvent::Relocked { bin, page, cpu: Some(cpu) } => {
                let s = heap::slot_of(cpu, bin);
                &&& r matches MallocStep::Done(addr)
                &&& addr != 0
                &&& page@.is_free(addr)
                &&& w.pages.len() == v.pages.len() + 1
                &&& w.pages.last().area == page@.area
                &&& w.pages.last().allocated(addr)
                &&& w.bins[s].list == v.bins[s].list.push(v.pages.len() as int)
                &&& w.bins[s].current == Some(v.pages.len() as int)
                &&& forall|t: int| 0 <= t < 1024 && t != s ==> #[trigger] w.bins[t] == v.bins[t]
            },
        },
{
    match event {
        MallocEvent::Locked { bin, cpu: Some(cpu) } => {
            law_slots_apart(cpu, bin, cpu, bin);
            law_pick(v, heap::slot_of(cpu, bin));
            let b = v.bins[heap::slot_of(cpu, bin)];
            if let Some(k) = v.pick(heap::slot_of(cpu, bin)) {
                if b.current != Some(k) {
                    let i = choose|i: int| 0 <= i < b.list.len() && b.list[i] == k;
                    assert(heap::has_free(v.pages[b.list[i]]));
                }
            } else {
                lemma_bins_rise(bin as int, bin as int);
                os::lemma_folio_bytes(v.page_shift, 0);
                os::lemma_folio_bytes(v.page_shift, 1);
                os::lemma_folio_bytes(v.page_shift, 10);
                law_page_order(v.page_shift, heap::BINS@[bin as int] as int);
            }
        },
        MallocEvent::Folio { target, got: Some(folio) } => {
            if v.meta.has_room() {
                let (arena, meta) = v.meta.taken();
                if target.bin is None {
                    law_own_folio(v, w, r, req, target, folio, meta, arena);
                }
            }
        },
        MallocEvent::Chunk { target, folio, chunk: Some(chunk) } => {
            os::lemma_folio_bytes(v.page_shift, 4);
            if target.bin is None {
                let full = v.meta.refilled(chunk, heap::chunk_bytes(v.page_shift) as u64);
                let arena = MetaView { bump: (chunk + 80) as u64, ..full };
                law_own_folio(v, w, r, req, target, folio, chunk, arena);
            }
        },
        MallocEvent::Relocked { bin, page, cpu: Some(cpu) } => {
            let s = heap::slot_of(cpu, bin);
            law_slots_apart(cpu, bin, cpu, bin);
            let n = v.pages.len() as int;
            let addr = r->Done_0;
            let x = v.linked(page@, s);
            assert(x.pages[n] == page@);
            page::lemma_collected_contains(page@.local, page@.thread, addr);
            let c = page@.thread.reverse() + page@.local;
            assert(c.contains(c[0]));
            assert(w.pages.last() == w.pages[n]);
        },
        _ => {},
    }
}

/// A page was made from `folio` for `target`: it is to be linked, or hands out its
/// only block at once.
pub open spec fn page_begun(r: MallocStep, target: Target, folio: Folio, req: Request) -> bool {
    match target.bin {
        Some(b) => {
            &&& r matches MallocStep::Relock { bin, page, may_fail }
            &&& bin == b
            &&& may_fail == !req.flags.may_block
            &&& page@.area == folio.area
            &&& page@.folio == folio.page
            &&& page@.order == target.order
            &&& page@.block_size == target.block_size
            &&& page@.cache == req.cache
            &&& heap::has_free(page@)
        },
        None => r == MallocStep::Done(folio.area),
    }
}

/// Handing out a block takes that block off the free ones, and no other.
pub proof fn law_taken_only(a: PageView, b: PageView, addr: u64, x: u64)
    requires
        a.wf(),
        heap::has_free(a),
        heap::block_taken(a, b, addr),
    ensures
        a.is_free(addr),
        !b.is_free(addr),
        x != addr ==> b.is_free(x) == a.is_free(x),
        b.local.len() + b.thread.len() + 1 == a.local.len() + a.thread.len(),
{
    let c = a.thread.reverse() + a.local;
    page::lemma_collected_contains(a.local, a.thread, addr);
    page::lemma_collected_contains(a.local, a.thread, x);
    assert(c.contains(c[0]));
    assert(b.local =~= c.drop_first());
    if x != addr {
        if c.contains(x) {
            let i = choose|i: int| 0 <= i < c.len() && c[i] == x;
            assert(b.local[i - 1] == x);
        }
        if b.local.contains(x) {
            let i = choose|i: int| 0 <= i < b.local.len() && b.local[i] == x;
            assert(c[i + 1] == x);
        }
    }
}

} // verus!
