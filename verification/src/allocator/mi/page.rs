//! A size-class page: a folio cut into blocks of one size.
//!
//! The free blocks form two lists, linked through the blocks themselves with
//! encoded addresses: a local one, and one for frees from elsewhere that is
//! collected into the local one. A block of 16 bytes or more carries a mark
//! behind its link that tells a free block from one in use; smaller blocks are
//! looked for on the lists.

use vstd::prelude::*;
use crate::allocator::mi::mem;
use crate::allocator::mi::os;

verus! {

/// Mark of a free block.
pub const FREED_CANARY: u32 = 0xFEEE_FEEE;

/// Mark of a block that was just handed out.
pub const ALLOC_CANARY: u32 = 0xA110_C8ED;

/// An address as it is kept in a link.
pub open spec fn encoded(addr: u64, key: u64) -> u64 {
    ((addr << 7u64) | (addr >> 57u64)) ^ key
}

/// The address kept in a link.
pub open spec fn decoded(enc: u64, key: u64) -> u64 {
    ((enc ^ key) >> 7u64) | ((enc ^ key) << 57u64)
}

/// Decoding undoes encoding, and encoding undoes decoding.
pub proof fn law_decode_encode(addr: u64, key: u64)
    ensures
        decoded(encoded(addr, key), key) == addr,
        encoded(decoded(addr, key), key) == addr,
{
    assert((((((addr ^ key) >> 7u64) | ((addr ^ key) << 57u64)) << 7u64) | ((((addr ^ key) >> 7u64)
        | ((addr ^ key) << 57u64)) >> 57u64)) ^ key == addr) by (bit_vector);
    assert((((((addr << 7u64) | (addr >> 57u64)) ^ key) ^ key) >> 7u64) | ((((((addr << 7u64) | (addr
        >> 57u64)) ^ key) ^ key) << 57u64)) == addr) by (bit_vector);
}

/// A link shows an address moved up by seven bits under a mask that is the key: addresses
/// that lose nothing by that are multiplied, and two keys differ in a link as they do
/// themselves.
pub proof fn law_encoded(addr: u64, key: u64, other: u64)
    ensures
        addr < 0x200_0000_0000_0000 ==> encoded(addr, 0) == addr * 128,
        encoded(addr, key) ^ encoded(addr, other) == key ^ other,
{
    assert(addr < 0x200_0000_0000_0000 ==> ((addr << 7u64) | (addr >> 57u64)) ^ 0 == addr * 128)
        by (bit_vector);
    assert((((addr << 7u64) | (addr >> 57u64)) ^ key) ^ (((addr << 7u64) | (addr >> 57u64))
        ^ other) == key ^ other) by (bit_vector);
}

/// Encodes an address for a link.
pub fn encode(addr: u64, key: u64) -> (r: u64)
    ensures
        r == encoded(addr, key),
        decoded(r, key) == addr,
{
    proof {
        law_decode_encode(addr, key);
    }
    ((addr << 7u64) | (addr >> 57u64)) ^ key
}

/// Reads the address out of a link.
pub fn decode(enc: u64, key: u64) -> (r: u64)
    ensures
        r == decoded(enc, key),
        encoded(r, key) == enc,
{
    proof {
        law_decode_encode(enc, key);
    }
    ((enc ^ key) >> 7u64) | ((enc ^ key) << 57u64)
}

/// The page descriptor with its folio.
pub struct MiPage {
    block_size: u32,
    capacity: u32,
    used: u32,
    page_shift: u32,
    order: u32,
    local_free: u64,
    thread_free: u64,
    key: u64,
    area: u64,
    folio: u64,
    cache: u64,
    meta: u64,
    mem: Vec<u8>,
    local: Ghost<Seq<u64>>,
    thread: Ghost<Seq<u64>>,
}

/// What a [`MiPage`] stands for.
#[verifier::ext_equal]
pub struct PageView {
    /// Bytes per block.
    pub block_size: u32,
    /// Number of blocks.
    pub capacity: u32,
    /// The folio's pages have `1 << page_shift` bytes.
    pub page_shift: u32,
    /// Order of the folio.
    pub order: u32,
    /// Key of the links.
    pub key: u64,
    /// Address of the folio's memory.
    pub area: u64,
    /// The folio.
    pub folio: u64,
    /// The cache that the page serves, or 0.
    pub cache: u64,
    /// Address of the descriptor.
    pub meta: u64,
    /// The folio's memory.
    pub mem: Seq<u8>,
    /// Free blocks, next to be taken first.
    pub local: Seq<u64>,
    /// Blocks freed from elsewhere and not collected yet, latest first.
    pub thread: Seq<u64>,
}

/// First element of a list, or 0.
pub open spec fn head(l: Seq<u64>) -> u64 {
    if l.len() == 0 {
        0
    } else {
        l[0]
    }
}

impl PageView {
    /// Where the memory of `addr` is.
    pub open spec fn off(self, addr: u64) -> int {
        addr - self.area
    }

    /// A block starts at `addr`.
    pub open spec fn is_block(self, addr: u64) -> bool {
        &&& self.area <= addr
        &&& self.off(addr) % (self.block_size as int) == 0
        &&& self.off(addr) / (self.block_size as int) < self.capacity
    }

    /// The block at `addr` is on a free list.
    pub open spec fn is_free(self, addr: u64) -> bool {
        self.local.contains(addr) || self.thread.contains(addr)
    }

    /// The block at `addr` is handed out.
    pub open spec fn allocated(self, addr: u64) -> bool {
        self.is_block(addr) && !self.is_free(addr)
    }

    /// `addr` lies in the folio.
    pub open spec fn contains(self, addr: u64) -> bool {
        self.area <= addr < self.area + os::folio_bytes(self.page_shift, self.order as int)
    }

    /// The address in the link of the block at `addr`.
    pub open spec fn link(self, addr: u64) -> u64 {
        decoded(mem::word64(self.mem, self.off(addr)) as u64, self.key)
    }

    /// The mark of the block at `addr`, or 0 if blocks are too small for one.
    pub open spec fn canary(self, addr: u64) -> int {
        if self.block_size >= 16 {
            mem::word32(self.mem, self.off(addr) + 8)
        } else {
            0
        }
    }

    /// The block at `addr` is taken for a free one: by its mark, or where blocks are
    /// too small for one, because it is on a free list.
    pub open spec fn looks_free(self, addr: u64) -> bool {
        if self.block_size >= 16 {
            self.canary(addr) == FREED_CANARY
        } else {
            self.is_free(addr)
        }
    }

    /// `l` is spelled out in the memory.
    pub open spec fn listed(self, l: Seq<u64>) -> bool {
        &&& forall|j: int|
            0 <= j < l.len() ==> self.is_block(#[trigger] l[j]) && (self.block_size >= 16
                ==> self.looks_free(l[j]))
        &&& forall|j: int|
            0 <= j < l.len() ==> #[trigger] self.link(l[j]) == if j + 1 < l.len() {
                l[j + 1]
            } else {
                0
            }
    }

    /// The folio is cut into blocks, and the free ones are on one list each.
    pub open spec fn wf(self) -> bool {
        &&& 8 <= self.block_size
        &&& os::is_page_shift(self.page_shift)
        &&& self.order <= 10
        &&& self.mem.len() == os::folio_bytes(self.page_shift, self.order as int)
        &&& self.capacity == self.mem.len() / self.block_size as nat
        &&& self.capacity >= 1
        &&& 0 < self.area
        &&& self.area + self.mem.len() <= u64::MAX
        &&& self.listed(self.local)
        &&& self.listed(self.thread)
        &&& (self.local + self.thread).no_duplicates()
        &&& self.local.len() + self.thread.len() <= self.capacity
    }

    /// The bytes of every block handed out in `self` are the same in `new`.
    pub open spec fn kept_by(self, new: PageView) -> bool {
        forall|addr: u64| #[trigger] self.allocated(addr) ==> same_block(new, self, addr)
    }
}

/// The block at `addr` of page `b` has the same bytes in `a`.
pub open spec fn same_block(a: PageView, b: PageView, addr: u64) -> bool {
    mem::same_in(a.mem, b.mem, b.off(addr), b.block_size as int)
}

/// Distinct multiples are at least one step apart.
proof fn lemma_apart(a: int, b: int, step: int)
    requires
        step > 0,
        a % step == 0,
        b % step == 0,
        a < b,
    ensures
        a + step <= b,
        a / step < b / step,
{
    let x = a / step;
    let y = b / step;
    vstd::arithmetic::div_mod::lemma_fundamental_div_mod(a, step);
    vstd::arithmetic::div_mod::lemma_fundamental_div_mod(b, step);
    assert(a == step * x && b == step * y);
    assert(x < y) by (nonlinear_arith)
        requires
            step * x < step * y,
            step > 0,
    ;
    assert(step * x + step <= step * y) by (nonlinear_arith)
        requires
            x < y,
            step > 0,
    ;
}

impl PageView {
    /// A block lies in the folio.
    pub proof fn lemma_block_inside(self, addr: u64)
        requires
            self.wf(),
            self.is_block(addr),
        ensures
            0 <= self.off(addr),
            self.off(addr) + self.block_size <= self.mem.len(),
            self.mem.len() <= 0x8000_0000,
            self.contains(addr),
    {
        os::lemma_folio_bytes(self.page_shift, self.order as int);
        let bs = self.block_size as int;
        let n = self.mem.len() as int;
        let k = self.off(addr) / bs;
        vstd::arithmetic::div_mod::lemma_fundamental_div_mod(self.off(addr), bs);
        vstd::arithmetic::div_mod::lemma_fundamental_div_mod(n, bs);
        assert(bs * k + bs <= bs * (n / bs)) by (nonlinear_arith)
            requires
                k < n / bs,
                bs > 0,
        ;
        assert(n % bs >= 0);
    }

    /// Two blocks do not overlap.
    pub proof fn lemma_blocks_apart(self, a: u64, b: u64)
        requires
            self.wf(),
            self.is_block(a),
            self.is_block(b),
            a != b,
        ensures
            self.off(a) + self.block_size <= self.off(b) || self.off(b) + self.block_size
                <= self.off(a),
    {
        if a < b {
            lemma_apart(self.off(a), self.off(b), self.block_size as int);
        } else {
            lemma_apart(self.off(b), self.off(a), self.block_size as int);
        }
    }

    /// Changing one block leaves the links and marks of the others alone.
    pub proof fn lemma_other_block(self, new: PageView, a: u64, b: u64)
        requires
            self.wf(),
            new == (PageView { mem: new.mem, local: new.local, thread: new.thread, ..self }),
            self.is_block(a),
            self.is_block(b),
            a != b,
            mem::same_but(new.mem, self.mem, self.off(a), self.block_size as int),
        ensures
            new.link(b) == self.link(b),
            new.canary(b) == self.canary(b),
            mem::same_in(new.mem, self.mem, self.off(b), self.block_size as int),
    {
        self.lemma_block_inside(a);
        self.lemma_block_inside(b);
        if a < b {
            lemma_apart(self.off(a), self.off(b), self.block_size as int);
        } else {
            lemma_apart(self.off(b), self.off(a), self.block_size as int);
        }
        assert(mem::same_in(new.mem, self.mem, self.off(b), self.block_size as int));
        assert(mem::same_in(new.mem, self.mem, self.off(b), 8));
        mem::lemma_same_words(new.mem, self.mem, self.off(b));
        if self.block_size >= 16 {
            assert(mem::same_in(new.mem, self.mem, self.off(b) + 8, 4));
            mem::lemma_same_words(new.mem, self.mem, self.off(b) + 8);
        }
    }

    /// With a block handed out, the lists do not hold all blocks.
    proof fn lemma_room(self, addr: u64)
        requires
            self.wf(),
            self.allocated(addr),
        ensures
            self.local.len() + self.thread.len() < self.capacity,
    {
        let bs = self.block_size as int;
        let l = (self.local + self.thread).push(addr);
        let n = l.len() as int;
        let ks = Seq::new(l.len(), |i: int| self.off(l[i]) / bs);
        assert forall|i: int| 0 <= i < n implies self.is_block(#[trigger] l[i]) by {
            if i < self.local.len() {
                assert(l[i] == self.local[i]);
            } else if i < n - 1 {
                assert(l[i] == self.thread[i - self.local.len()]);
            }
        }
        assert forall|i: int, j: int| 0 <= i < n && 0 <= j < n && i != j implies l[i] != l[j] by {
            let c = self.local + self.thread;
            if i == n - 1 || j == n - 1 {
                let k = if i == n - 1 {
                    j
                } else {
                    i
                };
                if k < self.local.len() {
                    assert(self.local.contains(self.local[k]));
                } else {
                    assert(self.thread.contains(self.thread[k - self.local.len()]));
                }
            } else {
                assert(c[i] != c[j]);
            }
        }
        assert(ks.no_duplicates()) by {
            assert forall|i: int, j: int| 0 <= i < n && 0 <= j < n && i != j implies ks[i]
                != ks[j] by {
                assert(l[i] != l[j]);
                assert(self.is_block(l[i]) && self.is_block(l[j]));
                if l[i] < l[j] {
                    lemma_apart(self.off(l[i]), self.off(l[j]), bs);
                } else {
                    lemma_apart(self.off(l[j]), self.off(l[i]), bs);
                }
            }
        }
        ks.unique_seq_to_set();
        let r = vstd::set_lib::set_int_range(0, self.capacity as int);
        vstd::set_lib::lemma_int_range(0, self.capacity as int);
        assert(ks.to_set().subset_of(r)) by {
            assert forall|k: int| ks.to_set().contains(k) implies r.contains(k) by {
                let i = choose|i: int| 0 <= i < ks.len() && ks[i] == k;
                assert(self.is_block(l[i]));
                vstd::arithmetic::div_mod::lemma_div_pos_is_pos(self.off(l[i]), bs);
            }
        }
        vstd::set_lib::lemma_len_subset(ks.to_set(), r);
    }
}

impl PageView {
    /// A list without `b` is still spelled out after block `b` changed.
    proof fn lemma_listed_same(self, new: PageView, b: u64, l: Seq<u64>)
        requires
            self.wf(),
            new == (PageView { mem: new.mem, local: new.local, thread: new.thread, ..self }),
            self.is_block(b),
            self.listed(l),
            !l.contains(b),
            mem::same_but(new.mem, self.mem, self.off(b), self.block_size as int),
        ensures
            new.listed(l),
    {
        assert forall|j: int| 0 <= j < l.len() implies self.is_block(#[trigger] l[j]) && new.link(
            l[j],
        ) == self.link(l[j]) && new.canary(l[j]) == self.canary(l[j]) by {
            assert(l.contains(l[j]));
            self.lemma_other_block(new, b, l[j]);
        }
    }

    /// A list with `b` put in front is spelled out once `b` links to it.
    proof fn lemma_listed_push(self, new: PageView, b: u64, l: Seq<u64>)
        requires
            self.wf(),
            new == (PageView { mem: new.mem, local: new.local, thread: new.thread, ..self }),
            self.is_block(b),
            self.listed(l),
            !l.contains(b),
            mem::same_but(new.mem, self.mem, self.off(b), self.block_size as int),
            new.link(b) == head(l),
            new.block_size >= 16 ==> new.looks_free(b),
        ensures
            new.listed(seq![b] + l),
    {
        self.lemma_listed_same(new, b, l);
        let m = seq![b] + l;
        assert forall|j: int| 0 <= j < m.len() implies new.is_block(#[trigger] m[j]) && (
        new.block_size >= 16 ==> new.looks_free(m[j])) by {
            if j > 0 {
                assert(m[j] == l[j - 1]);
            }
        }
        assert forall|j: int| 0 <= j < m.len() implies #[trigger] new.link(m[j]) == if j + 1
            < m.len() {
            m[j + 1]
        } else {
            0
        } by {
            if j > 0 {
                assert(m[j] == l[j - 1]);
                assert(new.link(l[j - 1]) == if j - 1 + 1 < l.len() {
                    l[j - 1 + 1]
                } else {
                    0
                });
            }
        }
    }

    /// Which lists the page has does not matter to how one is spelled out.
    proof fn lemma_listed_frame(self, new: PageView, l: Seq<u64>)
        requires
            new == (PageView { local: new.local, thread: new.thread, ..self }),
            self.listed(l),
        ensures
            new.listed(l),
    {
        assert forall|j: int| 0 <= j < l.len() implies new.is_block(#[trigger] l[j]) && new.link(
            l[j],
        ) == self.link(l[j]) && new.canary(l[j]) == self.canary(l[j]) by {
            assert(self.is_block(l[j]));
        }
    }

    /// The rest of a list is spelled out too.
    proof fn lemma_listed_rest(self, l: Seq<u64>)
        requires
            self.listed(l),
            l.len() > 0,
        ensures
            self.listed(l.drop_first()),
            self.link(l[0]) == head(l.drop_first()),
    {
        let m = l.drop_first();
        assert forall|j: int| 0 <= j < m.len() implies self.is_block(#[trigger] m[j]) && (
        self.block_size >= 16 ==> self.looks_free(m[j])) by {
            assert(m[j] == l[j + 1]);
        }
        assert forall|j: int| 0 <= j < m.len() implies #[trigger] self.link(m[j]) == if j + 1
            < m.len() {
            m[j + 1]
        } else {
            0
        } by {
            assert(m[j] == l[j + 1]);
            assert(self.link(l[j + 1]) == if j + 1 + 1 < l.len() {
                l[j + 1 + 1]
            } else {
                0
            });
        }
        assert(self.link(l[0]) == if 1 < l.len() {
            l[1]
        } else {
            0
        });
    }

    /// What changed in one block that was not handed out.
    proof fn lemma_kept(self, new: PageView, b: u64)
        requires
            self.wf(),
            new == (PageView { mem: new.mem, local: new.local, thread: new.thread, ..self }),
            self.is_block(b),
            mem::same_but(new.mem, self.mem, self.off(b), self.block_size as int),
        ensures
            forall|addr: u64| #[trigger]
                self.allocated(addr) && addr != b ==> mem::same_in(
                    new.mem,
                    self.mem,
                    self.off(addr),
                    self.block_size as int,
                ),
    {
        assert forall|addr: u64| #[trigger] self.allocated(addr) && addr != b implies mem::same_in(
            new.mem,
            self.mem,
            self.off(addr),
            self.block_size as int,
        ) by {
            self.lemma_other_block(new, b, addr);
        }
    }
}

impl View for MiPage {
    type V = PageView;

    closed spec fn view(&self) -> PageView {
        PageView {
            block_size: self.block_size,
            capacity: self.capacity,
            page_shift: self.page_shift,
            order: self.order,
            key: self.key,
            area: self.area,
            folio: self.folio,
            cache: self.cache,
            meta: self.meta,
            mem: self.mem@,
            local: self.local@,
            thread: self.thread@,
        }
    }
}

impl MiPage {
    /// The page is sound.
    pub closed spec fn wf(&self) -> bool {
        &&& self@.wf()
        &&& self.local_free == head(self@.local)
        &&& self.thread_free == head(self@.thread)
        &&& self.used == self.capacity - self@.local.len()
    }

    pub proof fn lemma_wf(&self)
        requires
            self.wf(),
        ensures
            self@.wf(),
    {
    }

    /// The address in the link of a block.
    fn block_next(&self, block: u64) -> (r: u64)
        requires
            self@.wf(),
            self@.is_block(block),
        ensures
            r == self@.link(block),
    {
        proof {
            self@.lemma_block_inside(block);
        }
        let off = (block - self.area) as usize;
        decode(mem::load64(&self.mem, off), self.key)
    }

    fn set_block_next(&mut self, block: u64, next: u64)
        requires
            old(self)@.wf(),
            old(self)@.is_block(block),
        ensures
            *final(self) == (MiPage { mem: final(self).mem, ..*old(self) }),
            mem::same_but(final(self)@.mem, old(self)@.mem, old(self)@.off(block), 8),
            final(self)@.link(block) == next,
            final(self)@.canary(block) == old(self)@.canary(block),
    {
        proof {
            self@.lemma_block_inside(block);
            law_decode_encode(next, self.key);
        }
        let off = (block - self.area) as usize;
        mem::store64(&mut self.mem, off, encode(next, self.key));
        proof {
            if self.block_size >= 16 {
                assert(mem::same_in(self.mem@, old(self).mem@, off + 8, 4));
                mem::lemma_same_words(self.mem@, old(self).mem@, off + 8);
            }
        }
    }

    fn write_canary(&mut self, block: u64, val: u32)
        requires
            old(self)@.wf(),
            old(self)@.is_block(block),
        ensures
            *final(self) == (MiPage { mem: final(self).mem, ..*old(self) }),
            mem::same_but(
                final(self)@.mem,
                old(self)@.mem,
                old(self)@.off(block) + 8,
                if old(self)@.block_size >= 16 {
                    4int
                } else {
                    0
                },
            ),
            final(self)@.link(block) == old(self)@.link(block),
            final(self)@.block_size >= 16 ==> final(self)@.canary(block) == val,
    {
        proof {
            self@.lemma_block_inside(block);
        }
        if self.block_size >= 16 {
            let off = (block - self.area) as usize;
            mem::store32(&mut self.mem, off + 8, val);
            proof {
                assert(mem::same_in(self.mem@, old(self).mem@, off as int, 8));
                mem::lemma_same_words(self.mem@, old(self).mem@, off as int);
            }
        }
    }

    /// The mark of a block, or 0 if blocks are too small for one.
    fn read_canary(&self, block: u64) -> (r: u32)
        requires
            self@.wf(),
            self@.is_block(block),
        ensures
            r == self@.canary(block),
    {
        proof {
            self@.lemma_block_inside(block);
        }
        if self.block_size >= 16 {
            mem::load32(&self.mem, (block - self.area) as usize + 8)
        } else {
            0
        }
    }

    /// The list that starts with `first` holds `block`.
    fn on_list(&self, first: u64, block: u64, list: Ghost<Seq<u64>>) -> (r: bool)
        requires
            self@.wf(),
            self@.listed(list@),
            first == head(list@),
        ensures
            r == list@.contains(block),
    {
        let mut cur = first;
        let ghost mut i: int = 0;
        while cur != 0
            invariant
                self@.wf(),
                self@.listed(list@),
                0 <= i <= list@.len(),
                cur == if i < list@.len() {
                    list@[i]
                } else {
                    0
                },
                forall|j: int| 0 <= j < i ==> list@[j] != block,
            decreases list@.len() - i,
        {
            if cur == block {
                assert(list@.contains(list@[i]));
                return true;
            }
            assert(self@.is_block(list@[i]));
            assert(self@.link(list@[i]) == if i + 1 < list@.len() {
                list@[i + 1]
            } else {
                0
            });
            cur = self.block_next(cur);
            proof {
                i = i + 1;
            }
        }
        assert(i == list@.len()) by {
            if i < list@.len() {
                assert(self@.is_block(list@[i]));
            }
        }
        false
    }

    /// True if freeing the block at `ptr` would free it twice.
    pub fn is_double_free(&self, ptr: u64) -> (r: bool)
        requires
            self.wf(),
            self@.is_block(ptr),
        ensures
            r == self@.looks_free(ptr),
    {
        if self.block_size >= 16 {
            self.read_canary(ptr) == FREED_CANARY
        } else {
            self.on_list(self.local_free, ptr, Ghost(self@.local)) || self.on_list(
                self.thread_free,
                ptr,
                Ghost(self@.thread),
            )
        }
    }

    /// A block starts at `addr`.
    pub fn holds_block(&self, addr: u64) -> (r: bool)
        requires
            self.wf(),
        ensures
            r == self@.is_block(addr),
    {
        if addr < self.area {
            return false;
        }
        let off = addr - self.area;
        let size = self.block_size as u64;
        off % size == 0 && off / size < self.capacity as u64
    }
}

impl PageView {
    /// The page with the frees from elsewhere collected: the earliest of them
    /// comes to lie deepest. Links are rewritten, so the memory is given.
    pub open spec fn collected(self, mem: Seq<u8>) -> PageView {
        PageView { mem, local: self.thread.reverse() + self.local, thread: Seq::empty(), ..self }
    }

    /// The page with the first free block taken. Its mark changes.
    pub open spec fn popped(self, mem: Seq<u8>) -> PageView {
        PageView { mem, local: self.collected(mem).local.drop_first(), thread: Seq::empty(), ..self }
    }

    /// The page with the block at `addr` on the local list.
    pub open spec fn pushed(self, mem: Seq<u8>, addr: u64) -> PageView {
        PageView { mem, local: seq![addr] + self.local, ..self }
    }

    /// The page with the block at `addr` on the list for frees from elsewhere.
    pub open spec fn pushed_thread(self, mem: Seq<u8>, addr: u64) -> PageView {
        PageView { mem, thread: seq![addr] + self.thread, ..self }
    }

    /// Putting an allocated block on a list gives a sound page.
    proof fn lemma_push(self, new: PageView, b: u64, local: bool)
        requires
            self.wf(),
            self.allocated(b),
            new == if local {
                self.pushed(new.mem, b)
            } else {
                self.pushed_thread(new.mem, b)
            },
            mem::same_but(new.mem, self.mem, self.off(b), self.block_size as int),
            new.link(b) == if local {
                head(self.local)
            } else {
                head(self.thread)
            },
            new.block_size >= 16 ==> new.looks_free(b),
        ensures
            new.wf(),
    {
        self.lemma_room(b);
        if local {
            self.lemma_listed_push(new, b, self.local);
            self.lemma_listed_same(new, b, self.thread);
        } else {
            self.lemma_listed_push(new, b, self.thread);
            self.lemma_listed_same(new, b, self.local);
        }
        let c = self.local + self.thread;
        let d = new.local + new.thread;
        let k = if local {
            0
        } else {
            self.local.len() as int
        };
        assert forall|i: int| 0 <= i < c.len() implies #[trigger] c[i] != b by {
            if i < self.local.len() {
                assert(self.local.contains(self.local[i]));
            } else {
                assert(self.thread.contains(self.thread[i - self.local.len()]));
            }
        }
        assert forall|i: int, j: int| 0 <= i < d.len() && 0 <= j < d.len() && i != j implies d[i]
            != d[j] by {
            let ci = if i < k {
                i
            } else {
                i - 1
            };
            let cj = if j < k {
                j
            } else {
                j - 1
            };
            if i != k {
                assert(d[i] == c[ci]);
            }
            if j != k {
                assert(d[j] == c[cj]);
            }
        }
    }
}

impl MiPage {
    /// Moves the blocks freed from elsewhere to the local list.
    pub fn collect(&mut self)
        requires
            old(self).wf(),
        ensures
            final(self).wf(),
            final(self)@ == old(self)@.collected(final(self)@.mem),
            old(self)@.kept_by(final(self)@),
            old(self)@.thread.len() == 0 ==> final(self)@ == old(self)@,
    {
        let mut cur = self.thread_free;
        self.thread_free = 0;
        let ghost v0 = self@;
        while cur != 0
            invariant
                self@.wf(),
                self@ == (PageView {
                    mem: self@.mem,
                    local: self@.local,
                    thread: self@.thread,
                    ..v0
                }),
                v0 == old(self)@,
                self.thread_free == 0,
                self.local_free == head(self@.local),
                cur == head(self@.thread),
                self.used == self.capacity - self@.local.len(),
                self@.thread.reverse() + self@.local == v0.thread.reverse() + v0.local,
                v0.kept_by(self@),
                forall|addr: u64| v0.allocated(addr) ==> #[trigger] self@.allocated(addr),
                v0.thread.len() == 0 ==> self@ == v0,
            decreases self@.thread.len(),
        {
            let ghost v1 = self@;
            let ghost t = v1.thread;
            let ghost rest = t.drop_first();
            proof {
                if t.len() == 0 {
                    assert(false);
                }
                assert(self@.is_block(t[0]));
                v1.lemma_listed_rest(t);
            }
            let next = self.block_next(cur);
            let local_free = self.local_free;
            self.set_block_next(cur, local_free);
            self.local_free = cur;
            self.used = self.used.saturating_sub(1);
            proof {
                self.thread@ = rest;
                self.local@ = seq![cur] + v1.local;
                let v2 = self@;
                let c = v1.local + v1.thread;
                assert forall|j: int| 0 <= j < v1.local.len() implies v1.local[j] != cur by {
                    assert(c[j] == v1.local[j]);
                    assert(c[v1.local.len() as int] == cur);
                }
                assert forall|j: int| 0 <= j < rest.len() implies rest[j] != cur by {
                    assert(c[v1.local.len() + j + 1] == rest[j]);
                    assert(c[v1.local.len() as int] == cur);
                }
                v1.lemma_listed_push(v2, cur, v1.local);
                v1.lemma_listed_same(v2, cur, rest);
                let d = v2.local + v2.thread;
                assert forall|i: int, j: int|
                    0 <= i < d.len() && 0 <= j < d.len() && i != j implies d[i] != d[j] by {
                    let n = v1.local.len() as int;
                    let ci = if i == 0 {
                        n
                    } else if i <= n {
                        i - 1
                    } else {
                        i
                    };
                    let cj = if j == 0 {
                        n
                    } else if j <= n {
                        j - 1
                    } else {
                        j
                    };
                    assert(d[i] == c[ci] && d[j] == c[cj]);
                }
                assert(rest.reverse() + v2.local =~= t.reverse() + v1.local);
                v1.lemma_kept(v2, cur);
                assert forall|addr: u64| v0.allocated(addr) implies #[trigger] v2.allocated(addr) by {
                    assert(v1.allocated(addr));
                    assert(!v1.thread.contains(addr));
                    lemma_pushed_contains(v1.local, cur, addr);
                    if rest.contains(addr) {
                        let j = choose|j: int| 0 <= j < rest.len() && rest[j] == addr;
                        assert(t[j + 1] == addr);
                    }
                    assert(t.contains(cur)) by {
                        assert(t[0] == cur);
                    }
                }
                assert forall|addr: u64| #[trigger] v0.allocated(addr) implies mem::same_in(
                    v2.mem,
                    v0.mem,
                    v0.off(addr),
                    v0.block_size as int,
                ) by {
                    assert(v1.allocated(addr));
                    assert(!v1.thread.contains(addr));
                    assert(t[0] == cur);
                    assert(t.contains(cur));
                    assert(mem::same_in(v1.mem, v0.mem, v0.off(addr), v0.block_size as int));
                    assert(mem::same_in(v2.mem, v1.mem, v1.off(addr), v1.block_size as int));
                }
            }
            cur = next;
        }
        proof {
            if self@.thread.len() > 0 {
                assert(self@.is_block(self@.thread[0]));
            }
            assert(self@.thread =~= Seq::empty());
            assert(self@.thread.reverse() + self@.local =~= self@.local);
        }
    }

    /// Takes a block; 0 if there is none.
    pub fn pop(&mut self) -> (r: u64)
        requires
            old(self).wf(),
        ensures
            final(self).wf(),
            old(self)@.kept_by(final(self)@),
            old(self)@.local.len() + old(self)@.thread.len() == 0 ==> r == 0 && final(self)@
                == old(self)@,
            old(self)@.local.len() + old(self)@.thread.len() > 0 ==> {
                &&& r == old(self)@.collected(old(self)@.mem).local[0]
                &&& r != 0
                &&& old(self)@.is_free(r)
                &&& final(self)@ == old(self)@.popped(final(self)@.mem)
                &&& final(self)@.allocated(r)
                &&& final(self)@.block_size >= 16 ==> final(self)@.canary(r) == ALLOC_CANARY
            },
    {
        self.collect();
        let ghost v1 = self@;
        let block = self.local_free;
        if block == 0 {
            proof {
                if v1.local.len() > 0 {
                    assert(v1.is_block(v1.local[0]));
                }
            }
            return 0;
        }
        proof {
            assert(v1.is_block(v1.local[0]));
            v1.lemma_listed_rest(v1.local);
        }
        let next = self.block_next(block);
        self.local_free = next;
        self.used = self.used.saturating_add(1);
        let ghost mem0 = self.mem@;
        proof {
            self.local@ = v1.local.drop_first();
            let v2 = self@;
            let c = v1.local + v1.thread;
            let d = v2.local + v2.thread;
            assert forall|i: int, j: int| 0 <= i < d.len() && 0 <= j < d.len() && i != j implies d[i]
                != d[j] by {
                assert(d[i] == c[i + 1] && d[j] == c[j + 1]);
            }
            v1.lemma_listed_frame(v2, v2.local);
            assert(v2.wf());
            assert(!v2.local.contains(block)) by {
                if v2.local.contains(block) {
                    let j = choose|j: int| 0 <= j < v2.local.len() && v2.local[j] == block;
                    assert(c[j + 1] == c[0]);
                }
            }
        }
        let ghost v2 = self@;
        self.write_canary(block, ALLOC_CANARY);
        proof {
            let v3 = self@;
            v2.lemma_block_inside(block);
            assert(mem::same_but(v3.mem, v2.mem, v2.off(block), v2.block_size as int));
            v2.lemma_listed_same(v3, block, v2.local);
            v2.lemma_kept(v3, block);
            let o = old(self)@;
            assert forall|addr: u64| #[trigger] o.allocated(addr) implies mem::same_in(
                v3.mem,
                o.mem,
                o.off(addr),
                o.block_size as int,
            ) by {
                lemma_collected_contains(o.local, o.thread, addr);
                assert(v1.local.contains(block));
                assert(addr != block);
                if v2.local.contains(addr) {
                    let j = choose|j: int| 0 <= j < v2.local.len() && v2.local[j] == addr;
                    assert(v1.local[j + 1] == addr);
                }
                assert(v2.allocated(addr));
                assert(mem::same_in(v1.mem, o.mem, o.off(addr), o.block_size as int));
            }
            lemma_collected_contains(o.local, o.thread, block);
            assert(v1.local.contains(v1.local[0]));
        }
        block
    }

    /// Gives back a block; false if it is taken for a free one.
    pub fn push_local(&mut self, block: u64) -> (r: bool)
        requires
            old(self).wf(),
            old(self)@.is_block(block),
        ensures
            final(self).wf(),
            r == !old(self)@.looks_free(block),
            !r ==> final(self)@ == old(self)@,
            r ==> old(self)@.allocated(block),
            r ==> final(self)@ == old(self)@.pushed(final(self)@.mem, block),
            final(self)@.kept_by(old(self)@),
    {
        if self.is_double_free(block) {
            return false;
        }
        let ghost v0 = self@;
        let local_free = self.local_free;
        proof {
            lemma_free_is_marked(v0, block);
            v0.lemma_block_inside(block);
            v0.lemma_room(block);
        }
        self.set_block_next(block, local_free);
        let ghost v1 = self@;
        proof {
            assert(mem::same_but(v1.mem, v0.mem, v0.off(block), v0.block_size as int));
            v0.lemma_listed_same(v1, block, v0.local);
            v0.lemma_listed_same(v1, block, v0.thread);
            assert(v1.wf());
        }
        self.write_canary(block, FREED_CANARY);
        self.local_free = block;
        self.used = self.used.saturating_sub(1);
        proof {
            self.local@ = seq![block] + v0.local;
            let v2 = self@;
            assert(mem::same_but(v2.mem, v0.mem, v0.off(block), v0.block_size as int)) by {
                assert forall|i: int|
                    0 <= i < v2.mem.len() && !(v0.off(block) <= i < v0.off(block)
                        + v0.block_size) implies #[trigger] v2.mem[i] == v0.mem[i] by {
                    assert(v1.mem[i] == v0.mem[i]);
                }
            }
            v0.lemma_push(v2, block, true);
            v0.lemma_kept(v2, block);
            lemma_kept_after_push(v0, v2, block, v0.local, v2.local);
        }
        true
    }

    /// Gives back a block from elsewhere; false if it is taken for a free one.
    pub fn push_thread(&mut self, block: u64) -> (r: bool)
        requires
            old(self).wf(),
            old(self)@.is_block(block),
        ensures
            final(self).wf(),
            r == !old(self)@.looks_free(block),
            !r ==> final(self)@ == old(self)@,
            r ==> old(self)@.allocated(block),
            r ==> final(self)@ == old(self)@.pushed_thread(final(self)@.mem, block),
            final(self)@.kept_by(old(self)@),
    {
        if self.is_double_free(block) {
            return false;
        }
        let ghost v0 = self@;
        proof {
            lemma_free_is_marked(v0, block);
            v0.lemma_block_inside(block);
            v0.lemma_room(block);
        }
        self.write_canary(block, FREED_CANARY);
        let ghost v1 = self@;
        proof {
            assert(mem::same_but(v1.mem, v0.mem, v0.off(block), v0.block_size as int));
            v0.lemma_listed_same(v1, block, v0.local);
            v0.lemma_listed_same(v1, block, v0.thread);
            assert(v1.wf());
        }
        let next = self.thread_free;
        self.set_block_next(block, next);
        self.thread_free = block;
        proof {
            self.thread@ = seq![block] + v0.thread;
            let v2 = self@;
            assert(mem::same_but(v2.mem, v0.mem, v0.off(block), v0.block_size as int)) by {
                assert forall|i: int|
                    0 <= i < v2.mem.len() && !(v0.off(block) <= i < v0.off(block)
                        + v0.block_size) implies #[trigger] v2.mem[i] == v0.mem[i] by {
                    assert(v1.mem[i] == v0.mem[i]);
                }
            }
            v0.lemma_push(v2, block, false);
            v0.lemma_kept(v2, block);
            lemma_kept_after_push(v0, v2, block, v0.thread, v2.thread);
        }
        true
    }
}

pub proof fn lemma_pushed_contains(l: Seq<u64>, x: u64, y: u64)
    ensures
        (seq![x] + l).contains(y) <==> x == y || l.contains(y),
{
    let m = seq![x] + l;
    assert(m[0] == x);
    if l.contains(y) {
        let j = choose|j: int| 0 <= j < l.len() && l[j] == y;
        assert(m[j + 1] == y);
    }
    if m.contains(y) {
        let j = choose|j: int| 0 <= j < m.len() && m[j] == y;
        if j > 0 {
            assert(l[j - 1] == y);
        }
    }
}

pub proof fn lemma_collected_contains(l: Seq<u64>, t: Seq<u64>, x: u64)
    ensures
        (t.reverse() + l).contains(x) <==> l.contains(x) || t.contains(x),
{
    let m = t.reverse() + l;
    let n = t.len() as int;
    if l.contains(x) {
        let j = choose|j: int| 0 <= j < l.len() && l[j] == x;
        assert(m[n + j] == x);
    }
    if t.contains(x) {
        let j = choose|j: int| 0 <= j < n && t[j] == x;
        assert(m[n - 1 - j] == x);
    }
    if m.contains(x) {
        let j = choose|j: int| 0 <= j < m.len() && m[j] == x;
        if j < n {
            assert(t[n - 1 - j] == x);
        } else {
            assert(l[j - n] == x);
        }
    }
}

/// A free block is taken for one.
pub proof fn lemma_free_is_marked(v: PageView, block: u64)
    requires
        v.wf(),
    ensures
        v.is_free(block) ==> v.looks_free(block),
{
    if v.local.contains(block) {
        let j = choose|j: int| 0 <= j < v.local.len() && v.local[j] == block;
        assert(v.is_block(v.local[j]));
    } else if v.thread.contains(block) {
        let j = choose|j: int| 0 <= j < v.thread.len() && v.thread[j] == block;
        assert(v.is_block(v.thread[j]));
    }
}

proof fn lemma_kept_after_push(a: PageView, b: PageView, block: u64, l: Seq<u64>, m: Seq<u64>)
    requires
        m == seq![block] + l,
        (b.local == m && a.local == l && b.thread == a.thread) || (b.thread == m && a.thread == l
            && b.local == a.local),
        b == (PageView { mem: b.mem, local: b.local, thread: b.thread, ..a }),
        forall|addr: u64| #[trigger]
            a.allocated(addr) && addr != block ==> mem::same_in(
                b.mem,
                a.mem,
                a.off(addr),
                a.block_size as int,
            ),
    ensures
        b.kept_by(a),
{
    assert forall|addr: u64| #[trigger] b.allocated(addr) implies mem::same_in(
        a.mem,
        b.mem,
        b.off(addr),
        b.block_size as int,
    ) by {
        lemma_pushed_contains(l, block, addr);
        assert(a.allocated(addr) && addr != block);
    }
}

/// Order of the folio for blocks of `size` bytes, with pages of `1 << shift`: large enough, and one more
/// where that is cheap and lets two blocks in. 11 if there is none.
pub open spec fn page_order(shift: u32, size: int) -> int {
    let o = os::order_for(shift, size, 0);
    if o > 10 {
        11
    } else if o < 3 && os::folio_bytes(shift, o) / size < 2 {
        o + 1
    } else {
        o
    }
}

/// Order of the folio that blocks of `block_size` need, with pages of `1 << shift` bytes.
pub fn create_order(shift: u32, block_size: u32) -> (r: Option<u32>)
    requires
        os::is_page_shift(shift),
    ensures
        r is Some <==> block_size > 0 && page_order(shift, block_size as int) <= 10,
        r matches Some(o) ==> o == page_order(shift, block_size as int) && os::folio_bytes(
            shift,
            o as int,
        ) >= block_size,
{
    if block_size == 0 {
        return None;
    }
    match os::smallest_order(shift, block_size as u64) {
        None => None,
        Some(o) => {
            proof {
                os::lemma_folio_bytes(shift, o as int);
            }
            if o < 3 && os::page_size_bytes(shift, o) / (block_size as u64) < 2 {
                return Some(o + 1);
            }
            Some(o)
        },
    }
}

/// The key of a page: from the address of its descriptor and a running number.
pub open spec fn page_key(meta: u64, seq: u64) -> u64 {
    meta.wrapping_mul(0x9E37_79B9_7F4A_7C15).wrapping_add(seq) | 1
}

/// The running number after `seq`.
pub open spec fn next_seq(seq: u64) -> u64 {
    seq.wrapping_add(0x9E37)
}

/// Draws a key for the page whose descriptor is at `meta`.
pub fn next_key(seq: &mut u64, meta: u64) -> (r: u64)
    ensures
        r == page_key(meta, *old(seq)),
        *final(seq) == next_seq(*old(seq)),
{
    let n = *seq;
    *seq = n.wrapping_add(0x9E37);
    meta.wrapping_mul(0x9E37_79B9_7F4A_7C15).wrapping_add(n) | 1
}

/// A folio that was taken from the system.
pub struct Folio {
    /// Its head page.
    pub page: u64,
    /// Where its memory is mapped.
    pub area: u64,
    /// Its memory.
    pub mem: Vec<u8>,
}

impl Folio {
    /// The folio has the size of its order and lies in the address space.
    pub open spec fn wf(&self, shift: u32, order: int) -> bool {
        &&& self.mem@.len() == os::folio_bytes(shift, order)
        &&& 0 < self.area
        &&& self.area + self.mem@.len() <= u64::MAX
    }
}

/// All blocks of a page, in order.
pub open spec fn all_blocks(area: u64, block_size: u32, capacity: u32) -> Seq<u64> {
    Seq::new(capacity as nat, |i: int| (area + i * block_size) as u64)
}

impl PageView {
    /// The block with number `i` starts at a multiple of the block size.
    pub proof fn lemma_nth_block(self, i: int)
        requires
            self.wf(),
            0 <= i < self.capacity,
        ensures
            self.area + i * self.block_size + self.block_size <= self.area + self.mem.len(),
            self.is_block((self.area + i * self.block_size) as u64),
    {
        let bs = self.block_size as int;
        let n = self.mem.len() as int;
        vstd::arithmetic::div_mod::lemma_fundamental_div_mod(n, bs);
        assert(i * bs + bs <= bs * (n / bs)) by (nonlinear_arith)
            requires
                i < n / bs,
                bs > 0,
        ;
        assert(i * bs >= 0) by (nonlinear_arith)
            requires
                i >= 0,
                bs > 0,
        ;
        assert(n % bs >= 0);
        vstd::arithmetic::div_mod::lemma_mod_multiples_basic(i, bs);
        vstd::arithmetic::div_mod::lemma_div_multiples_vanish(i, bs);
        assert(bs * i == i * bs) by (nonlinear_arith);
    }
}

impl MiPage {
    /// Cuts a folio into blocks of `block_size`, all free, lowest first.
    pub fn create(
        page_shift: u32,
        block_size: u32,
        order: u32,
        folio: Folio,
        meta: u64,
        key: u64,
        cache: u64,
    ) -> (r: MiPage)
        requires
            os::is_page_shift(page_shift),
            8 <= block_size,
            order <= 10,
            folio.wf(page_shift, order as int),
            block_size <= os::folio_bytes(page_shift, order as int),
        ensures
            r.wf(),
            r@.block_size == block_size,
            r@.capacity == os::folio_bytes(page_shift, order as int) / block_size as int,
            r@.page_shift == page_shift,
            r@.order == order,
            r@.key == key,
            r@.area == folio.area,
            r@.folio == folio.page,
            r@.cache == cache,
            r@.meta == meta,
            r@.local == all_blocks(folio.area, block_size, r@.capacity),
            r@.thread == Seq::<u64>::empty(),
    {
        let bytes = os::page_size_bytes(page_shift, order);
        let capacity = (bytes / block_size as u64) as u32;
        proof {
            let b = bytes as int;
            let s = block_size as int;
            assert(1 <= b / s) by {
                vstd::arithmetic::div_mod::lemma_div_non_zero(b, s);
            }
            assert(b / s <= b) by {
                vstd::arithmetic::div_mod::lemma_div_nonincreasing(b, s);
            }
        }
        let mut page = MiPage {
            block_size,
            capacity,
            used: capacity,
            page_shift,
            order,
            local_free: 0,
            thread_free: 0,
            key,
            area: folio.area,
            folio: folio.page,
            cache,
            meta,
            mem: folio.mem,
            local: Ghost(Seq::empty()),
            thread: Ghost(Seq::empty()),
        };
        page.init_freelist();
        page
    }

    fn init_freelist(&mut self)
        requires
            old(self).wf(),
            old(self)@.local.len() == 0,
            old(self)@.thread.len() == 0,
        ensures
            final(self).wf(),
            final(self)@ == (PageView {
                mem: final(self)@.mem,
                local: all_blocks(old(self)@.area, old(self)@.block_size, old(self)@.capacity),
                ..old(self)@
            }),
    {
        let ghost v0 = self@;
        let ghost all = all_blocks(v0.area, v0.block_size, v0.capacity);
        let mut i = self.capacity;
        assert(all.skip(i as int) =~= self@.local);
        while i > 0
            invariant
                self.wf(),
                i <= self.capacity,
                v0.wf(),
                self@ == (PageView { mem: self@.mem, local: self@.local, ..v0 }),
                v0.thread.len() == 0,
                all == all_blocks(v0.area, v0.block_size, v0.capacity),
                self@.local == all.skip(i as int),
            decreases i,
        {
            i = i - 1;
            let ghost v1 = self@;
            proof {
                v0.lemma_nth_block(i as int);
                os::lemma_folio_bytes(v0.page_shift, v0.order as int);
                assert(i * v0.block_size <= v0.mem.len());
            }
            let block = self.area + i as u64 * self.block_size as u64;
            proof {
                assert(block == all[i as int]);
                assert(v1.is_block(block));
                if v1.local.contains(block) {
                    let j = choose|j: int| 0 <= j < v1.local.len() && v1.local[j] == block;
                    assert(v1.local[j] == all[i + 1 + j]);
                    v0.lemma_nth_block(i + 1 + j);
                    let bs = v0.block_size as int;
                    assert((i + 1 + j) * bs > i * bs) by (nonlinear_arith)
                        requires
                            j >= 0,
                            bs > 0,
                    ;
                }
                v1.lemma_block_inside(block);
                v1.lemma_room(block);
            }
            let prev = self.local_free;
            self.set_block_next(block, prev);
            let ghost v2 = self@;
            proof {
                assert(mem::same_but(v2.mem, v1.mem, v1.off(block), v1.block_size as int));
                v1.lemma_listed_same(v2, block, v1.local);
                v1.lemma_listed_same(v2, block, v1.thread);
                assert(v2.wf());
            }
            self.write_canary(block, FREED_CANARY);
            self.local_free = block;
            self.used = self.used - 1;
            proof {
                self.local@ = seq![block] + v1.local;
                let v3 = self@;
                assert(mem::same_but(v3.mem, v1.mem, v1.off(block), v1.block_size as int)) by {
                    assert forall|k: int|
                        0 <= k < v3.mem.len() && !(v1.off(block) <= k < v1.off(block)
                            + v1.block_size) implies #[trigger] v3.mem[k] == v1.mem[k] by {
                        assert(v2.mem[k] == v1.mem[k]);
                    }
                }
                v1.lemma_push(v3, block, true);
                assert(v3.local =~= all.skip(i as int));
            }
        }
        assert(all.skip(0) =~= all);
    }

    /// The folio and its order, for giving them back.
    pub fn folio(&self) -> (r: (u64, u32))
        requires
            self.wf(),
        ensures
            r == (self@.folio, self@.order),
    {
        (self.folio, self.order)
    }

    /// Address of the descriptor.
    pub fn meta(&self) -> (r: u64)
        requires
            self.wf(),
        ensures
            r == self@.meta,
    {
        self.meta
    }

    /// Bytes per block.
    pub fn block_size(&self) -> (r: u32)
        requires
            self.wf(),
        ensures
            r == self@.block_size,
    {
        self.block_size
    }

    /// `addr` lies in the folio.
    pub fn contains(&self, addr: u64) -> (r: bool)
        requires
            self.wf(),
        ensures
            r == self@.contains(addr),
    {
        let bytes = os::page_size_bytes(self.page_shift, self.order);
        addr >= self.area && addr < self.area + bytes
    }

    /// A block is free locally.
    pub fn has_local(&self) -> (r: bool)
        requires
            self.wf(),
        ensures
            r == (self@.local.len() > 0),
    {
        proof {
            if self@.local.len() > 0 {
                assert(self@.is_block(self@.local[0]));
            }
        }
        self.local_free != 0
    }

    /// No block is handed out, as far as collected.
    pub fn is_unused(&self) -> (r: bool)
        requires
            self.wf(),
        ensures
            r == (self@.local.len() == self@.capacity),
    {
        self.used == 0
    }
}

impl PageView {
    /// The page with other bytes in the block at `addr`.
    pub open spec fn rewritten(self, mem: Seq<u8>, addr: u64, from: int, n: int) -> bool {
        mem::same_but(mem, self.mem, self.off(addr) + from, n)
    }

    /// Writing into a block handed out does not touch the lists.
    proof fn lemma_written(self, new: PageView, addr: u64)
        requires
            self.wf(),
            self.allocated(addr),
            new == (PageView { mem: new.mem, ..self }),
            mem::same_but(new.mem, self.mem, self.off(addr), self.block_size as int),
        ensures
            new.wf(),
    {
        self.lemma_listed_same(new, addr, self.local);
        self.lemma_listed_same(new, addr, self.thread);
    }

    /// Collecting changes no block's being handed out.
    pub proof fn lemma_collected_allocated(self, mem: Seq<u8>, addr: u64)
        ensures
            self.collected(mem).allocated(addr) == self.allocated(addr),
    {
        lemma_collected_contains(self.local, self.thread, addr);
    }
}

impl MiPage {
    /// Sets the `n` bytes at `from` of a block handed out to `val`.
    pub fn fill(&mut self, block: u64, from: u64, val: u8, n: u64)
        requires
            old(self).wf(),
            old(self)@.allocated(block),
            from + n <= old(self)@.block_size,
        ensures
            final(self).wf(),
            final(self)@ == (PageView { mem: final(self)@.mem, ..old(self)@ }),
            old(self)@.rewritten(final(self)@.mem, block, from as int, n as int),
            forall|i: int|
                from <= i < from + n ==> #[trigger] final(self)@.mem[old(self)@.off(block) + i]
                    == val,
    {
        proof {
            self@.lemma_block_inside(block);
        }
        let off = (block - self.area) as usize;
        mem::fill(&mut self.mem, off + from as usize, val, n as usize);
        proof {
            old(self)@.lemma_written(self@, block);
        }
    }

    /// The byte at `at` of a block.
    pub fn get(&self, block: u64, at: u64) -> (r: u8)
        requires
            self.wf(),
            self@.is_block(block),
            at < self@.block_size,
        ensures
            r == self@.mem[self@.off(block) + at],
    {
        proof {
            self@.lemma_block_inside(block);
        }
        self.mem[(block - self.area) as usize + at as usize]
    }

    /// Sets the byte at `at` of a block handed out.
    pub fn put(&mut self, block: u64, at: u64, val: u8)
        requires
            old(self).wf(),
            old(self)@.allocated(block),
            at < old(self)@.block_size,
        ensures
            final(self).wf(),
            final(self)@ == (PageView {
                mem: old(self)@.mem.update(old(self)@.off(block) + at, val),
                ..old(self)@
            }),
    {
        proof {
            self@.lemma_block_inside(block);
        }
        let k = (block - self.area) as usize + at as usize;
        self.mem[k] = val;
        proof {
            assert(self@.mem =~= old(self)@.mem.update(old(self)@.off(block) + at, val));
            old(self)@.lemma_written(self@, block);
        }
    }
}

} // verus!
