//! The block structure of a buddy span.
//!
//! A span of 512 pages is cut into blocks of `2^order` pages. One tag per page
//! records the cut: the first page of a block carries the block's order, with
//! the free bit set while the block is free, and every other page carries
//! [`TAG_NONE`].

use vstd::prelude::*;

verus! {

/// Tag of a page that is not the first of a block.
pub const TAG_NONE: u8 = 0xFF;

/// Bit that marks the block starting at a page as free.
pub const TAG_FREE: u8 = 0x80;

/// Pages in a block of `order`.
pub open spec fn block_pages(order: int) -> int {
    if order <= 0 {
        1
    } else if order == 1 {
        2
    } else if order == 2 {
        4
    } else if order == 3 {
        8
    } else if order == 4 {
        16
    } else if order == 5 {
        32
    } else if order == 6 {
        64
    } else if order == 7 {
        128
    } else if order == 8 {
        256
    } else {
        512
    }
}

/// `rel` is a multiple of the block size of `order`.
pub open spec fn aligned(rel: int, order: int) -> bool {
    if order <= 0 {
        true
    } else if order == 1 {
        rel % 2 == 0
    } else if order == 2 {
        rel % 4 == 0
    } else if order == 3 {
        rel % 8 == 0
    } else if order == 4 {
        rel % 16 == 0
    } else if order == 5 {
        rel % 32 == 0
    } else if order == 6 {
        rel % 64 == 0
    } else if order == 7 {
        rel % 128 == 0
    } else if order == 8 {
        rel % 256 == 0
    } else {
        rel % 512 == 0
    }
}

/// First page of the other half of the next larger block around `rel`.
pub open spec fn buddy_of(rel: int, order: int) -> int {
    if aligned(rel, order + 1) {
        rel + block_pages(order)
    } else {
        rel - block_pages(order)
    }
}

/// First page of the next larger block around `rel`.
pub open spec fn parent_of(rel: int, order: int) -> int {
    if aligned(rel, order + 1) {
        rel
    } else {
        rel - block_pages(order)
    }
}

/// Order named by the tag of a block's first page.
pub open spec fn tag_order(tag: u8) -> int {
    if tag >= TAG_FREE {
        tag - TAG_FREE
    } else {
        tag as int
    }
}

/// The block starting at `i` is well placed and owns its inner pages.
pub open spec fn block_ok(tags: Seq<u8>, i: int) -> bool {
    let o = tag_order(tags[i]);
    &&& 0 <= o <= 9
    &&& aligned(i, o)
    &&& i + block_pages(o) <= 512
    &&& forall|k: int| i < k < i + block_pages(o) ==> #[trigger] tags[k] == TAG_NONE
}

/// Page `i` lies in the block that starts at `h`.
pub open spec fn covers(tags: Seq<u8>, h: int, i: int) -> bool {
    &&& 0 <= h <= i < h + block_pages(tag_order(tags[h]))
    &&& h < 512
    &&& tags[h] != TAG_NONE
}

/// Some block holds page `i`.
pub open spec fn is_covered(tags: Seq<u8>, i: int) -> bool {
    exists|h: int| #[trigger] covers(tags, h, i)
}

/// The blocks partition the span.
pub open spec fn partitioned(tags: Seq<u8>) -> bool {
    &&& tags.len() == 512
    &&& forall|i: int| 0 <= i < 512 && #[trigger] tags[i] != TAG_NONE ==> block_ok(tags, i)
    &&& forall|i: int| 0 <= i < 512 ==> #[trigger] is_covered(tags, i)
}

/// A free block of `order` starts at `i`.
pub open spec fn free_at(tags: Seq<u8>, i: int, order: int) -> bool {
    &&& 0 <= i < 512
    &&& 0 <= order <= 9
    &&& tags[i] == TAG_FREE + order
}

/// An allocated block of `order` starts at `i`.
pub open spec fn used_at(tags: Seq<u8>, i: int, order: int) -> bool {
    &&& 0 <= i < 512
    &&& 0 <= order <= 9
    &&& tags[i] == order
}

/// No two free buddies are left unmerged.
pub open spec fn coalesced(tags: Seq<u8>) -> bool {
    forall|i: int, o: int|
        0 <= o < 9 && #[trigger] free_at(tags, i, o) ==> !free_at(tags, buddy_of(i, o), o)
}

/// The tags of a live span.
pub open spec fn tags_ok(tags: Seq<u8>) -> bool {
    &&& partitioned(tags)
    &&& coalesced(tags)
}

/// The facts of [`lemma_buddy`] for one block size `s`, with `t == 2 * s`.
proof fn lemma_buddy_size(rel: int, s: int, t: int)
    requires
        0 <= rel < 512,
        t == 2 * s,
        s == 1 || s == 2 || s == 4 || s == 8 || s == 16 || s == 32 || s == 64 || s == 128 || s == 256,
        rel % s == 0,
    ensures
        rel + s <= 512,
        rel % t == 0 ==> (rel + s) % s == 0 && (rel + s) % t != 0 && rel + t <= 512,
        rel % t != 0 ==> (rel - s) % s == 0 && (rel - s) % t == 0 && 0 <= rel - s && rel - s + t
            <= 512,
{
    if s == 1 {
        assert(rel % 2 == 0 ==> (rel + 1) % 1 == 0 && (rel + 1) % 2 != 0);
        assert(rel % 1 == 0 && rel % 2 != 0 ==> (rel - 1) % 1 == 0 && (rel - 1) % 2 == 0);
    } else if s == 2 {
        assert(rel % 4 == 0 ==> (rel + 2) % 2 == 0 && (rel + 2) % 4 != 0);
        assert(rel % 2 == 0 && rel % 4 != 0 ==> (rel - 2) % 2 == 0 && (rel - 2) % 4 == 0);
    } else if s == 4 {
        assert(rel % 8 == 0 ==> (rel + 4) % 4 == 0 && (rel + 4) % 8 != 0);
        assert(rel % 4 == 0 && rel % 8 != 0 ==> (rel - 4) % 4 == 0 && (rel - 4) % 8 == 0);
    } else if s == 8 {
        assert(rel % 16 == 0 ==> (rel + 8) % 8 == 0 && (rel + 8) % 16 != 0);
        assert(rel % 8 == 0 && rel % 16 != 0 ==> (rel - 8) % 8 == 0 && (rel - 8) % 16 == 0);
    } else if s == 16 {
        assert(rel % 32 == 0 ==> (rel + 16) % 16 == 0 && (rel + 16) % 32 != 0);
        assert(rel % 16 == 0 && rel % 32 != 0 ==> (rel - 16) % 16 == 0 && (rel - 16) % 32 == 0);
    } else if s == 32 {
        assert(rel % 64 == 0 ==> (rel + 32) % 32 == 0 && (rel + 32) % 64 != 0);
        assert(rel % 32 == 0 && rel % 64 != 0 ==> (rel - 32) % 32 == 0 && (rel - 32) % 64 == 0);
    } else if s == 64 {
        assert(rel % 128 == 0 ==> (rel + 64) % 64 == 0 && (rel + 64) % 128 != 0);
        assert(rel % 64 == 0 && rel % 128 != 0 ==> (rel - 64) % 64 == 0 && (rel - 64) % 128 == 0);
    } else if s == 128 {
        assert(rel % 256 == 0 ==> (rel + 128) % 128 == 0 && (rel + 128) % 256 != 0);
        assert(rel % 128 == 0 && rel % 256 != 0 ==> (rel - 128) % 128 == 0 && (rel - 128) % 256 == 0);
    } else {
        assert(rel % 512 == 0 ==> (rel + 256) % 256 == 0 && (rel + 256) % 512 != 0);
        assert(rel % 256 == 0 && rel % 512 != 0 ==> (rel - 256) % 256 == 0 && (rel - 256) % 512 == 0);
    }
}

pub proof fn lemma_aligned_mod(rel: int, order: int)
    requires
        0 <= order <= 9,
    ensures
        aligned(rel, order) == (rel % block_pages(order) == 0),
{
}

pub proof fn lemma_buddy(rel: int, order: int)
    requires
        0 <= rel < 512,
        0 <= order < 9,
        aligned(rel, order),
    ensures
        0 <= buddy_of(rel, order) < 512,
        buddy_of(rel, order) != rel,
        aligned(buddy_of(rel, order), order),
        buddy_of(rel, order) + block_pages(order) <= 512,
        rel + block_pages(order) <= 512,
        buddy_of(buddy_of(rel, order), order) == rel,
        0 <= parent_of(rel, order) < 512,
        aligned(parent_of(rel, order), order + 1),
        parent_of(rel, order) + block_pages(order + 1) <= 512,
        block_pages(order + 1) == 2 * block_pages(order),
        parent_of(buddy_of(rel, order), order) == parent_of(rel, order),
{
    let s = block_pages(order);
    let t = block_pages(order + 1);
    assert(t == 2 * s);
    lemma_buddy_size(rel, s, t);
    lemma_aligned_mod(rel, order);
    lemma_aligned_mod(rel, order + 1);
    lemma_aligned_mod(rel + s, order);
    lemma_aligned_mod(rel + s, order + 1);
    lemma_aligned_mod(rel - s, order);
    lemma_aligned_mod(rel - s, order + 1);
}

pub proof fn lemma_aligned_down(rel: int, order: int)
    requires
        0 <= rel < 512,
        0 <= order < 9,
        aligned(rel, order + 1),
    ensures
        aligned(rel, order),
        buddy_of(rel, order) == rel + block_pages(order),
        parent_of(rel, order) == rel,
{
    if order == 0 {
    } else if order == 1 {
    } else if order == 2 {
    } else if order == 3 {
    } else if order == 4 {
    } else if order == 5 {
    } else if order == 6 {
    } else if order == 7 {
    } else {
    }
}

/// Taking a free block keeps the structure.
pub proof fn lemma_take(tags: Seq<u8>, i: int, order: int)
    requires
        tags_ok(tags),
        free_at(tags, i, order),
    ensures
        tags_ok(tags.update(i, order as u8)),
        used_at(tags.update(i, order as u8), i, order),
{
    let t2 = tags.update(i, order as u8);
    assert forall|j: int| 0 <= j < 512 && #[trigger] t2[j] != TAG_NONE implies block_ok(t2, j) by {
        assert(block_ok(tags, j));
        assert(tag_order(t2[j]) == tag_order(tags[j]));
        assert forall|k: int| j < k < j + block_pages(tag_order(t2[j])) implies #[trigger] t2[k]
            == TAG_NONE by {
            assert(tags[k] == TAG_NONE);
        }
    }
    assert forall|j: int| 0 <= j < 512 implies #[trigger] is_covered(t2, j) by {
        assert(is_covered(tags, j));
        let h = choose|h: int| #[trigger] covers(tags, h, j);
        assert(covers(t2, h, j));
    }
    assert forall|j: int, o: int| 0 <= o < 9 && #[trigger] free_at(t2, j, o) implies !free_at(
        t2,
        buddy_of(j, o),
        o,
    ) by {
        assert(free_at(tags, j, o));
    }
}

/// Halving an allocated block and freeing its upper half keeps the structure.
pub proof fn lemma_split(tags: Seq<u8>, i: int, order: int)
    requires
        tags_ok(tags),
        0 <= order < 9,
        used_at(tags, i, order + 1),
    ensures
        i + block_pages(order) < 512,
        tags_ok(tags.update(i, order as u8).update(i + block_pages(order), (TAG_FREE + order) as u8)),
        tags[i + block_pages(order)] == TAG_NONE,
{
    assert(block_ok(tags, i));
    lemma_aligned_down(i, order);
    lemma_buddy(i, order);
    let b = i + block_pages(order);
    let t2 = tags.update(i, order as u8).update(b, (TAG_FREE + order) as u8);
    assert(i < b < i + block_pages(order + 1));
    assert forall|j: int| 0 <= j < 512 && #[trigger] t2[j] != TAG_NONE implies block_ok(t2, j) by {
        if j == i || j == b {
            assert forall|k: int| j < k < j + block_pages(order) implies #[trigger] t2[k]
                == TAG_NONE by {
                assert(tags[k] == TAG_NONE);
            }
        } else {
            assert(block_ok(tags, j));
            assert forall|k: int| j < k < j + block_pages(tag_order(t2[j])) implies #[trigger] t2[k]
                == TAG_NONE by {
                assert(tags[k] == TAG_NONE);
                if k == b {
                    assert(j < i || j > i);
                    if j < i {
                        assert(tags[i] == TAG_NONE);
                    } else {
                        assert(tags[j] == TAG_NONE);
                    }
                }
            }
        }
    }
    assert forall|j: int| 0 <= j < 512 implies #[trigger] is_covered(t2, j) by {
        assert(is_covered(tags, j));
        let h = choose|h: int| #[trigger] covers(tags, h, j);
        if h == i {
            if j < b {
                assert(covers(t2, i, j));
            } else {
                assert(covers(t2, b, j));
            }
        } else {
            assert(covers(t2, h, j));
        }
    }
    assert forall|j: int, o: int| 0 <= o < 9 && #[trigger] free_at(t2, j, o) implies !free_at(
        t2,
        buddy_of(j, o),
        o,
    ) by {
        assert(block_ok(t2, j));
        lemma_buddy(j, o);
        if j == b {
            assert(o == order);
        } else {
            assert(free_at(tags, j, o));
            if buddy_of(j, o) == b && o == order {
                assert(buddy_of(b, o) == i);
            }
        }
    }
}

/// Merging an allocated block with its free buddy keeps the structure.
pub proof fn lemma_merge(tags: Seq<u8>, i: int, order: int)
    requires
        tags_ok(tags),
        0 <= order < 9,
        used_at(tags, i, order),
        free_at(tags, buddy_of(i, order), order),
    ensures
        ({
            let p = parent_of(i, order);
            let q = p + block_pages(order);
            let t2 = tags.update(q, TAG_NONE).update(p, (order + 1) as u8);
            &&& tags_ok(t2)
            &&& q < 512
        }),
{
    assert(block_ok(tags, i));
    lemma_buddy(i, order);
    let b = buddy_of(i, order);
    let p = parent_of(i, order);
    let q = p + block_pages(order);
    let t2 = tags.update(q, TAG_NONE).update(p, (order + 1) as u8);
    assert(block_ok(tags, b));
    assert((p == i && q == b) || (p == b && q == i));
    assert forall|j: int| 0 <= j < 512 && #[trigger] t2[j] != TAG_NONE implies block_ok(t2, j) by {
        if j == p {
            assert forall|k: int| j < k < j + block_pages(order + 1) implies #[trigger] t2[k]
                == TAG_NONE by {
                if k != q {
                    assert(tags[k] == TAG_NONE);
                }
            }
        } else {
            assert(block_ok(tags, j));
            assert forall|k: int| j < k < j + block_pages(tag_order(t2[j])) implies #[trigger] t2[k]
                == TAG_NONE by {
                assert(tags[k] == TAG_NONE);
            }
        }
    }
    assert forall|j: int| 0 <= j < 512 implies #[trigger] is_covered(t2, j) by {
        assert(is_covered(tags, j));
        let h = choose|h: int| #[trigger] covers(tags, h, j);
        if h == p || h == q {
            assert(covers(t2, p, j));
        } else {
            assert(covers(t2, h, j));
        }
    }
    assert forall|j: int, o: int| 0 <= o < 9 && #[trigger] free_at(t2, j, o) implies !free_at(
        t2,
        buddy_of(j, o),
        o,
    ) by {
        assert(free_at(tags, j, o));
    }
}

/// Freeing a block whose buddy is not free keeps the structure.
pub proof fn lemma_release(tags: Seq<u8>, i: int, order: int)
    requires
        tags_ok(tags),
        used_at(tags, i, order),
        order < 9 ==> !free_at(tags, buddy_of(i, order), order),
    ensures
        tags_ok(tags.update(i, (TAG_FREE + order) as u8)),
{
    let t2 = tags.update(i, (TAG_FREE + order) as u8);
    assert(block_ok(tags, i));
    assert forall|j: int| 0 <= j < 512 && #[trigger] t2[j] != TAG_NONE implies block_ok(t2, j) by {
        assert(block_ok(tags, j));
        assert(tag_order(t2[j]) == tag_order(tags[j]));
        assert forall|k: int| j < k < j + block_pages(tag_order(t2[j])) implies #[trigger] t2[k]
            == TAG_NONE by {
            assert(tags[k] == TAG_NONE);
        }
    }
    assert forall|j: int| 0 <= j < 512 implies #[trigger] is_covered(t2, j) by {
        assert(is_covered(tags, j));
        let h = choose|h: int| #[trigger] covers(tags, h, j);
        assert(covers(t2, h, j));
    }
    assert forall|j: int, o: int| 0 <= o < 9 && #[trigger] free_at(t2, j, o) implies !free_at(
        t2,
        buddy_of(j, o),
        o,
    ) by {
        assert(block_ok(t2, j));
        lemma_buddy(j, o);
        if j != i {
            assert(free_at(tags, j, o));
        }
    }
}

/// A fresh span is one free block.
pub proof fn lemma_fresh()
    ensures
        tags_ok(Seq::new(512, |i: int| TAG_NONE).update(0, (TAG_FREE + 9) as u8)),
{
    let t = Seq::new(512, |i: int| TAG_NONE).update(0, (TAG_FREE + 9) as u8);
    assert forall|j: int| 0 <= j < 512 implies #[trigger] is_covered(t, j) by {
        assert(covers(t, 0, j));
    }
}

/// In a fully free span no block is smaller than the span.
proof fn lemma_no_small_block(tags: Seq<u8>, order: int, i: int)
    requires
        tags_ok(tags),
        forall|j: int, o: int| !#[trigger] used_at(tags, j, o),
        0 <= order < 9,
    ensures
        !free_at(tags, i, order),
    decreases order,
{
    if free_at(tags, i, order) {
        assert(block_ok(tags, i));
        lemma_buddy(i, order);
        let b = buddy_of(i, order);
        let p = parent_of(i, order);
        assert(is_covered(tags, b));
        let h = choose|h: int| #[trigger] covers(tags, h, b);
        assert(block_ok(tags, h));
        let o = tag_order(tags[h]);
        if tags[h] < TAG_FREE {
            assert(used_at(tags, h, o));
        }
        assert(free_at(tags, h, o));
        if o < order {
            lemma_no_small_block(tags, o, h);
        } else if o == order {
            lemma_same_block(h, b, order);
        } else {
            lemma_enclosing_block(h, o, b, order);
            if h != i {
                assert(h < i < h + block_pages(o));
                assert(tags[i] == TAG_NONE);
            }
        }
    }
}

proof fn lemma_same_block(h: int, b: int, order: int)
    requires
        0 <= h <= b < h + block_pages(order),
        h < 512,
        b < 512,
        0 <= order < 9,
        aligned(h, order),
        aligned(b, order),
    ensures
        h == b,
{
    if order == 0 {
    } else if order == 1 {
    } else if order == 2 {
    } else if order == 3 {
    } else if order == 4 {
    } else if order == 5 {
    } else if order == 6 {
    } else if order == 7 {
    } else {
    }
}

/// A block starting on a multiple of `m` holds the whole aligned pair around
/// any of its pages, for pairs of `2 * s` pages with `2 * s` dividing `m`.
proof fn lemma_enclosing_pair(h: int, m: int, b: int, s: int)
    requires
        0 <= h <= b < h + m,
        s > 0,
        h % m == 0,
        b % s == 0,
        m % (2 * s) == 0,
    ensures
        b % (2 * s) == 0 ==> b + s < h + m,
        b % (2 * s) != 0 ==> h <= b - s,
{
    let t = 2 * s;
    let c = m / t;
    let q = h / m;
    assert(m == t * c) by {
        vstd::arithmetic::div_mod::lemma_fundamental_div_mod(m, t);
    }
    assert(h == m * q) by {
        vstd::arithmetic::div_mod::lemma_fundamental_div_mod(h, m);
    }
    let e = q * c;
    assert(h == t * e) by (nonlinear_arith)
        requires
            h == m * q,
            m == t * c,
            e == q * c,
    ;
    let d = b / t;
    assert(b == t * d + b % t) by {
        vstd::arithmetic::div_mod::lemma_fundamental_div_mod(b, t);
    }
    let r = b % t;
    assert(r == 0 || r == s) by {
        let k = b / s;
        assert(b == s * k) by {
            vstd::arithmetic::div_mod::lemma_fundamental_div_mod(b, s);
        }
        let x = k - 2 * d;
        assert(r == s * x) by (nonlinear_arith)
            requires
                b == s * k,
                b == t * d + r,
                t == 2 * s,
                x == k - 2 * d,
        ;
        assert(0 <= r < 2 * s);
        assert(0 <= x < 2) by (nonlinear_arith)
            requires
                r == s * x,
                0 <= r < 2 * s,
                s > 0,
        ;
        assert(s * 0 == 0 && s * 1 == s);
    }
    if r == 0 {
        assert(d < e + c) by (nonlinear_arith)
            requires
                b == t * d,
                h == t * e,
                m == t * c,
                b < h + m,
                t > 0,
        ;
        assert(t * (d + 1) <= t * (e + c)) by (nonlinear_arith)
            requires
                d + 1 <= e + c,
                t > 0,
        ;
        assert(t * (d + 1) == t * d + t) by (nonlinear_arith);
        assert(t * (e + c) == t * e + t * c) by (nonlinear_arith);
    } else {
        assert(h <= b - s) by (nonlinear_arith)
            requires
                b == t * d + s,
                h == t * e,
                h <= b,
                t == 2 * s,
                s > 0,
        ;
    }
}

/// Smaller block sizes divide larger ones.
proof fn lemma_pages_divide(o: int, k: int)
    requires
        0 <= k <= o <= 9,
    ensures
        block_pages(o) % block_pages(k) == 0,
    decreases o - k,
{
    let t = block_pages(k);
    if o == k {
        assert(t % t == 0) by {
            vstd::arithmetic::div_mod::lemma_mod_self_0(t);
        }
    } else {
        lemma_pages_divide(o - 1, k);
        let x = block_pages(o - 1);
        assert(block_pages(o) == 2 * x);
        vstd::arithmetic::div_mod::lemma_fundamental_div_mod(x, t);
        let c = x / t;
        assert(2 * x == (2 * c) * t) by (nonlinear_arith)
            requires
                x == t * c,
        ;
        vstd::arithmetic::div_mod::lemma_mod_multiples_basic(2 * c, t);
    }
}

proof fn lemma_enclosing_block(h: int, o: int, b: int, order: int)
    requires
        0 <= h <= b < h + block_pages(o),
        0 <= order < o <= 9,
        aligned(h, o),
        aligned(b, order),
    ensures
        h <= buddy_of(b, order) < h + block_pages(o),
{
    lemma_aligned_mod(h, o);
    lemma_aligned_mod(b, order);
    lemma_aligned_mod(b, order + 1);
    assert(block_pages(order + 1) == 2 * block_pages(order));
    lemma_pages_divide(o, order + 1);
    lemma_enclosing_pair(h, block_pages(o), b, block_pages(order));
}

/// Once every block is free, the span is a single block again.
pub proof fn lemma_all_free(tags: Seq<u8>)
    requires
        tags_ok(tags),
        forall|j: int, o: int| !#[trigger] used_at(tags, j, o),
    ensures
        free_at(tags, 0, 9),
        forall|i: int| 0 < i < 512 ==> #[trigger] tags[i] == TAG_NONE,
{
    assert(is_covered(tags, 0));
    let h = choose|h: int| #[trigger] covers(tags, h, 0);
    let o = tag_order(tags[0]);
    assert(block_ok(tags, 0));
    if tags[0] < TAG_FREE {
        assert(used_at(tags, 0, o));
    }
    if o < 9 {
        lemma_no_small_block(tags, o, 0);
    }
}

} // verus!
