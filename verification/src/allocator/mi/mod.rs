//! A small-object allocator: size-class pages with local and remote free lists.
//!
//! [`MiKmalloc`] allocates objects by layout; the `rust_mi_*` functions serve
//! `kmalloc`. Locks and folios are the caller's part: [`heap::malloc`] says
//! which it needs and is called again with the outcome.

pub mod heap;
pub mod laws;
pub mod mem;
pub mod meta;
pub mod os;
pub mod page;

use vstd::prelude::*;
use crate::allocator::buddy;
use crate::allocator::buddy::{Buddy, InitEvent, InitStep};
use crate::allocator::mi::heap::{
    free, realloc, usable_size, write_bytes, Mi, MiView, ReallocStep, Request,
};
use crate::allocator::request;
use crate::allocator::request::{dangling, AllocError, Buffer, Flags, Layout, NumaNode};

verus! {

/// Contiguous allocator on size-class pages. Every object is aligned to `MIN_ALIGN` at
/// least, as the architecture asks for.
pub struct MiKmalloc<const MIN_ALIGN: u64>;

/// Address handed out for objects without size.
pub const ZERO_SIZE_PTR: u64 = 16;

/// No preferred NUMA node.
pub const NO_NODE: i32 = -1;

/// What an allocation by layout needs next.
#[derive(Clone, Copy, PartialEq, Eq, Structural, Debug)]
pub enum KmallocStep {
    /// Return this buffer.
    Done(Buffer),
    /// Give back the block at this address with [`heap::free`], then return the buffer.
    FreeThen(u64, Buffer),
    /// Run this request and pass the outcome to [`MiKmalloc::realloc_done`].
    Malloc(Request),
    /// Run [`heap::realloc`] for the block at `ptr` and pass the outcome to
    /// [`MiKmalloc::realloc_done`].
    Realloc { ptr: u64, size: u64, align: u64 },
}

/// How allocating, freeing or resizing an object begins, where every object is aligned
/// to `min_align` at least.
pub open spec fn kmalloc_begun(
    min_align: u64,
    ptr: Option<u64>,
    layout: Layout,
    old_layout: Layout,
    flags: Flags,
    nid: NumaNode,
) -> KmallocStep {
    let align = if layout.align < min_align {
        min_align
    } else {
        layout.align
    };
    let live = if old_layout.size != 0 {
        ptr
    } else {
        None
    };
    let empty = request::without_size(layout);
    match live {
        Some(p) => if layout.size == 0 {
            KmallocStep::FreeThen(p, empty)
        } else {
            KmallocStep::Realloc { ptr: p, size: layout.size, align }
        },
        None => if layout.size == 0 {
            KmallocStep::Done(empty)
        } else {
            KmallocStep::Malloc(
                Request { size: layout.size, align, flags, nid: nid.0, cache: 0 },
            )
        },
    }
}

/// How freeing an object of `layout` begins.
pub open spec fn kmalloc_freeing(ptr: u64, layout: Layout) -> KmallocStep {
    if layout.size == 0 {
        KmallocStep::Done(Buffer { addr: 1, len: 0 })
    } else {
        KmallocStep::FreeThen(ptr, Buffer { addr: 1, len: 0 })
    }
}

/// `w` is `v` after the object at `raw` was made or resized: what is new of it is
/// zeroed if the flags ask for it.
pub open spec fn kmalloc_ended(
    v: MiView,
    w: MiView,
    raw: u64,
    ptr: Option<u64>,
    layout: Layout,
    old_layout: Layout,
    flags: Flags,
) -> bool {
    let from = if ptr is None {
        0
    } else {
        old_layout.size
    };
    if raw != 0 && flags.zero && from < layout.size {
        &&& v.written(w, raw, from as int, layout.size as int)
        &&& forall|i: int| from <= i < layout.size ==> #[trigger] w.byte(raw, i) == 0
    } else {
        w == v
    }
}

/// How allocating some bytes begins.
pub open spec fn mi_begun(size: u64, align: u64, flags: Flags, nid: i32, cache: u64) -> MiStep {
    if size == 0 {
        MiStep::Done(ZERO_SIZE_PTR)
    } else {
        MiStep::Malloc(
            Request {
                size,
                align: if align == 0 {
                    1
                } else {
                    align
                },
                flags,
                nid,
                cache,
            },
        )
    }
}

/// `w` is `v` after `size` bytes came back at `p`, or 0: they are zeroed if the flags ask
/// for it.
pub open spec fn mi_ended(v: MiView, w: MiView, p: u64, size: u64, flags: Flags) -> bool {
    if p != 0 && flags.zero {
        &&& v.written(w, p, 0, size as int)
        &&& forall|i: int| 0 <= i < size ==> #[trigger] w.byte(p, i) == 0
    } else {
        w == v
    }
}

/// `w` is `v` after `ptr` was given back, with result `r`. Nothing is kept at the
/// address of objects without size or below.
pub open spec fn mi_freed(v: MiView, w: MiView, ptr: u64, locked: bool, r: bool) -> bool {
    if ptr <= ZERO_SIZE_PTR {
        r && w == v
    } else {
        v.freed(w, ptr, locked, r)
    }
}

/// Usable size of the object at `ptr`.
pub open spec fn mi_usable(v: MiView, ptr: u64) -> u64 {
    if ptr <= ZERO_SIZE_PTR {
        0
    } else {
        v.usable(ptr)
    }
}

/// How resizing the object at `ptr` begins.
pub open spec fn mi_resized(
    v: MiView,
    ptr: u64,
    new_size: u64,
    align: u64,
    flags: Flags,
    nid: i32,
) -> MiReallocStep {
    let by = if align == 0 {
        1
    } else {
        align
    };
    let req = Request { size: new_size, align: by, flags, nid, cache: 0 };
    if new_size == 0 {
        MiReallocStep::FreeThen(ZERO_SIZE_PTR)
    } else if ptr <= ZERO_SIZE_PTR {
        MiReallocStep::Malloc(req)
    } else if new_size <= v.usable(ptr) && ptr % by == 0 {
        MiReallocStep::Heap(ReallocStep::Done(ptr))
    } else {
        MiReallocStep::Heap(ReallocStep::Move(req))
    }
}

impl<const MIN_ALIGN: u64> MiKmalloc<MIN_ALIGN> {
    /// Begins to allocate, free or resize an object.
    pub fn realloc(
        ptr: Option<u64>,
        layout: Layout,
        old_layout: Layout,
        flags: Flags,
        nid: NumaNode,
    ) -> (r: KmallocStep)
        ensures
            r == kmalloc_begun(MIN_ALIGN, ptr, layout, old_layout, flags, nid),
    {
        let align: u64 = if layout.align < MIN_ALIGN {
            MIN_ALIGN
        } else {
            layout.align
        };
        let size = layout.size;
        if size == 0 {
            if let Some(p) = ptr {
                if old_layout.size != 0 {
                    return KmallocStep::FreeThen(p, dangling(layout));
                }
            }
            return KmallocStep::Done(dangling(layout));
        }
        let request = Request { size, align, flags, nid: nid.0, cache: 0 };
        match ptr {
            None => KmallocStep::Malloc(request),
            Some(p) => if old_layout.size == 0 {
                KmallocStep::Malloc(request)
            } else {
                KmallocStep::Realloc { ptr: p, size, align }
            },
        }
    }

    /// Ends what [`MiKmalloc::realloc`] began: `raw` is the address that came
    /// back, or 0. Zeroes what is new if the flags ask for it.
    pub fn realloc_done(
        mi: &mut Mi,
        raw: u64,
        ptr: Option<u64>,
        layout: Layout,
        old_layout: Layout,
        flags: Flags,
    ) -> (r: Result<Buffer, AllocError>)
        requires
            old(mi).wf(),
            raw != 0 ==> old(mi)@.live(raw) && layout.size <= old(mi)@.usable(raw),
        ensures
            final(mi).wf(),
            r == request::handed_out(raw, layout),
            kmalloc_ended(old(mi)@, final(mi)@, raw, ptr, layout, old_layout, flags),
    {
        if raw == 0 {
            return Err(AllocError);
        }
        let size = layout.size;
        if flags.zero && (ptr.is_none() || old_layout.size == 0) {
            if size > 0 {
                write_bytes(mi, raw, 0, size, 0);
            }
        } else if flags.zero && size > old_layout.size {
            write_bytes(mi, raw, old_layout.size, size, 0);
        }
        Ok(Buffer { addr: raw, len: size })
    }

    /// Begins to allocate an object.
    pub fn allocate(layout: Layout, flags: Flags, nid: NumaNode) -> (r: KmallocStep)
        ensures
            r == kmalloc_begun(
                MIN_ALIGN,
                None,
                layout,
                Layout { size: 0, align: 1 },
                flags,
                nid,
            ),
    {
        Self::realloc(None, layout, Layout { size: 0, align: 1 }, flags, nid)
    }

    /// Begins to free an object of `layout`.
    pub fn free(ptr: u64, layout: Layout) -> (r: KmallocStep)
        ensures
            r == kmalloc_freeing(ptr, layout),
    {
        Self::realloc(
            Some(ptr),
            Layout { size: 0, align: 1 },
            layout,
            Flags { raw: 0, may_block: false, zero: false },
            NumaNode(NO_NODE),
        )
    }
}

/// Sets up the page pool under the allocator. Entered with flags that may sleep.
pub fn rust_mi_init(pool: &mut Buddy, event: InitEvent) -> (r: InitStep)
    requires
        old(pool).wf(),
        event matches InitEvent::Enter(flags) ==> flags.may_block,
        event matches InitEvent::Stolen(Some(pfn)) ==> pfn + 512 <= u64::MAX,
    ensures
        final(pool).wf(),
        (final(pool)@, r) == old(pool)@.init_next(event),
{
    buddy::init(pool, event)
}

/// What an allocation by size needs next.
#[derive(Clone, Copy, PartialEq, Eq, Structural, Debug)]
pub enum MiStep {
    /// Return this address.
    Done(u64),
    /// Run this request and pass the outcome to [`rust_mi_alloc_done`].
    Malloc(Request),
}

/// Begins to allocate `size` bytes.
pub fn rust_mi_alloc(size: u64, align: u64, flags: Flags, nid: i32, cache: u64) -> (r: MiStep)
    ensures
        r == mi_begun(size, align, flags, nid, cache),
{
    if size == 0 {
        return MiStep::Done(ZERO_SIZE_PTR);
    }
    let align: u64 = if align == 0 {
        1
    } else {
        align
    };
    MiStep::Malloc(Request { size, align, flags, nid, cache })
}

/// Ends what [`rust_mi_alloc`] began: `p` is the address that came back, or 0.
/// Zeroes the object if the flags ask for it.
pub fn rust_mi_alloc_done(mi: &mut Mi, p: u64, size: u64, flags: Flags) -> (r: u64)
    requires
        old(mi).wf(),
        p != 0 ==> old(mi)@.live(p) && size <= old(mi)@.usable(p),
    ensures
        final(mi).wf(),
        r == p,
        mi_ended(old(mi)@, final(mi)@, p, size, flags),
{
    if p != 0 && flags.zero {
        write_bytes(mi, p, 0, size, 0);
    }
    p
}

/// Frees an object. Returns false on a double free. `locked` says that the heap
/// lock is held.
pub fn rust_mi_free(mi: &mut Mi, ptr: u64, locked: bool) -> (r: bool)
    requires
        old(mi).wf(),
    ensures
        final(mi).wf(),
        mi_freed(old(mi)@, final(mi)@, ptr, locked, r),
{
    if ptr <= ZERO_SIZE_PTR {
        return true;
    }
    free(mi, ptr, locked)
}

/// Usable size of an object.
pub fn rust_mi_usable_size(mi: &Mi, ptr: u64) -> (r: u64)
    requires
        mi.wf(),
    ensures
        r == mi_usable(mi@, ptr),
{
    if ptr <= ZERO_SIZE_PTR {
        return 0;
    }
    usable_size(mi, ptr)
}

/// What resizing an object needs next.
#[derive(Clone, Copy, PartialEq, Eq, Structural, Debug)]
pub enum MiReallocStep {
    /// Free the object with [`rust_mi_free`] and return this address.
    FreeThen(u64),
    /// Go on as after [`rust_mi_alloc`].
    Malloc(Request),
    /// Go on as after [`heap::realloc`].
    Heap(ReallocStep),
}

/// Begins to resize an object.
pub fn rust_mi_realloc(
    mi: &Mi,
    ptr: u64,
    new_size: u64,
    align: u64,
    flags: Flags,
    nid: i32,
) -> (r: MiReallocStep)
    requires
        mi.wf(),
    ensures
        r == mi_resized(mi@, ptr, new_size, align, flags, nid),
{
    if new_size == 0 {
        return MiReallocStep::FreeThen(ZERO_SIZE_PTR);
    }
    if ptr <= ZERO_SIZE_PTR {
        return match rust_mi_alloc(new_size, align, flags, nid, 0) {
            MiStep::Malloc(req) => MiReallocStep::Malloc(req),
            MiStep::Done(p) => MiReallocStep::FreeThen(p),
        };
    }
    let by: u64 = if align == 0 {
        1
    } else {
        align
    };
    MiReallocStep::Heap(realloc(mi, ptr, new_size, by, flags, nid))
}

} // verus!
