//! Memory for page descriptors: a bump allocator with a free list.

use vstd::prelude::*;

verus! {

/// Bytes per descriptor.
pub const META_SIZE: u64 = 80;

/// Bytes in the first chunk of descriptors.
pub const META_CHUNK: u64 = 65536;

/// Order of the folio that a new chunk is.
pub const META_ORDER: u32 = 4;

/// Where the next descriptor comes from.
pub struct MetaArena {
    bump: u64,
    end: u64,
    free: Vec<u64>,
}

/// What a [`MetaArena`] stands for.
#[verifier::ext_equal]
pub struct MetaView {
    /// Next unused address of the current chunk.
    pub bump: u64,
    /// End of the current chunk.
    pub end: u64,
    /// Descriptors given back, latest last.
    pub free: Seq<u64>,
}

impl MetaView {
    pub open spec fn wf(self) -> bool {
        &&& 0 < self.bump <= self.end
        &&& forall|i: int| 0 <= i < self.free.len() ==> #[trigger] self.free[i] != 0
    }

    /// A descriptor can be had without another chunk.
    pub open spec fn has_room(self) -> bool {
        self.free.len() > 0 || self.end - self.bump >= META_SIZE
    }

    /// The arena and the address after taking a descriptor.
    pub open spec fn taken(self) -> (MetaView, u64) {
        if self.free.len() > 0 {
            (MetaView { free: self.free.drop_last(), ..self }, self.free.last())
        } else {
            (MetaView { bump: (self.bump + META_SIZE) as u64, ..self }, self.bump)
        }
    }

    /// The arena with a new chunk of `bytes`.
    pub open spec fn refilled(self, chunk: u64, bytes: u64) -> MetaView {
        MetaView { bump: chunk, end: (chunk + bytes) as u64, ..self }
    }

    /// The arena with a descriptor given back.
    pub open spec fn returned(self, meta: u64) -> MetaView {
        MetaView { free: self.free.push(meta), ..self }
    }
}

impl View for MetaArena {
    type V = MetaView;

    closed spec fn view(&self) -> MetaView {
        MetaView { bump: self.bump, end: self.end, free: self.free@ }
    }
}

impl MetaArena {
    /// An arena over the chunk at `boot`.
    pub fn new(boot: u64) -> (r: MetaArena)
        requires
            boot > 0,
            boot + META_CHUNK <= u64::MAX,
        ensures
            r@.wf(),
            r@ == (MetaView {
                bump: boot,
                end: (boot + META_CHUNK) as u64,
                free: Seq::empty(),
            }),
    {
        MetaArena { bump: boot, end: boot + META_CHUNK, free: Vec::new() }
    }

    /// Takes a descriptor; `None` if another chunk is needed first.
    pub fn meta_take(&mut self) -> (r: Option<u64>)
        requires
            old(self)@.wf(),
        ensures
            final(self)@.wf(),
            r is Some <==> old(self)@.has_room(),
            r is None ==> final(self)@ == old(self)@,
            r matches Some(meta) ==> meta != 0 && (final(self)@, meta) == old(self)@.taken(),
    {
        let ghost v = self@;
        if let Some(meta) = self.free.pop() {
            assert(v.free[v.free.len() - 1] != 0);
            return Some(meta);
        }
        if self.end - self.bump < META_SIZE {
            return None;
        }
        let meta = self.bump;
        self.bump = meta + META_SIZE;
        Some(meta)
    }

    /// Goes on with the `bytes` at `chunk` and takes the first descriptor there.
    pub fn meta_refill(&mut self, chunk: u64, bytes: u64) -> (meta: u64)
        requires
            old(self)@.wf(),
            chunk > 0,
            META_SIZE <= bytes,
            chunk + bytes <= u64::MAX,
        ensures
            final(self)@.wf(),
            meta == chunk,
            final(self)@ == (MetaView {
                bump: (chunk + META_SIZE) as u64,
                ..old(self)@.refilled(chunk, bytes)
            }),
    {
        self.bump = chunk + META_SIZE;
        self.end = chunk + bytes;
        chunk
    }

    /// Gives back a descriptor.
    pub fn meta_free(&mut self, meta: u64)
        requires
            old(self)@.wf(),
            meta != 0,
        ensures
            final(self)@.wf(),
            final(self)@ == old(self)@.returned(meta),
    {
        self.free.push(meta);
    }
}

} // verus!
