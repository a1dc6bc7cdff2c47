//! Sorted arrays of address ranges, and storing a range into one.
//!
//! Adjacent ranges with the same pointer are coalesced, so an array is
//! determined by what its addresses hold.

use vstd::prelude::*;

verus! {

/// The addresses from `start` to `last`, both included, hold `ptr`.
#[derive(Clone, Copy, PartialEq, Eq, Structural, Debug)]
pub struct Ent {
    pub start: u64,
    pub last: u64,
    pub ptr: u64,
}

/// The ranges are in order, do not overlap, and are as long as they can be.
pub open spec fn ents_ok(es: Seq<Ent>) -> bool {
    &&& ordered(es)
    &&& forall|i: int|
        0 <= i < es.len() - 1 ==> #[trigger] parted(es, i)
}

/// Entries `i` and `i + 1` are not one range in two pieces.
pub open spec fn parted(es: Seq<Ent>, i: int) -> bool {
    !adjoins(es[i], es[i + 1])
}

/// The ranges are in order and do not overlap.
pub open spec fn ordered(es: Seq<Ent>) -> bool {
    &&& forall|i: int| 0 <= i < es.len() ==> (#[trigger] es[i]).start <= es[i].last && es[i].ptr != 0
    &&& forall|i: int, j: int|
        0 <= i < j < es.len() ==> (#[trigger] es[i]).last < (#[trigger] es[j]).start
}

/// `b` goes on where `a` ends, with the same pointer.
pub open spec fn adjoins(a: Ent, b: Ent) -> bool {
    a.last + 1 == b.start && a.ptr == b.ptr
}

/// Number of entries that end before `x`.
pub open spec fn below(es: Seq<Ent>, x: u64) -> int
    decreases es.len(),
{
    if es.len() == 0 || es[0].last >= x {
        0
    } else {
        1 + below(es.drop_first(), x)
    }
}

/// Entry `i` holds address `x`.
pub open spec fn holds(es: Seq<Ent>, i: int, x: u64) -> bool {
    0 <= i < es.len() && es[i].start <= x <= es[i].last
}

/// The pointer at address `x`, or 0.
pub open spec fn lookup(es: Seq<Ent>, x: u64) -> u64 {
    let i = below(es, x);
    if holds(es, i, x) {
        es[i].ptr
    } else {
        0
    }
}

/// `es` with `e` behind it, coalesced.
pub open spec fn joined(es: Seq<Ent>, e: Ent) -> Seq<Ent> {
    if es.len() > 0 && adjoins(es.last(), e) {
        es.drop_last().push(Ent { last: e.last, ..es.last() })
    } else {
        es.push(e)
    }
}

/// `a` with the entries of `b` behind it, coalesced.
pub open spec fn appended(a: Seq<Ent>, b: Seq<Ent>) -> Seq<Ent>
    decreases b.len(),
{
    if b.len() == 0 {
        a
    } else {
        joined(appended(a, b.drop_last()), b.last())
    }
}

/// What lies before `index`.
pub open spec fn left_of(es: Seq<Ent>, index: u64) -> Seq<Ent> {
    let i = below(es, index);
    let whole = es.take(i);
    if i < es.len() && es[i].start < index {
        whole.push(Ent { last: (index - 1) as u64, ..es[i] })
    } else {
        whole
    }
}

/// What lies behind `last`.
pub open spec fn right_of(es: Seq<Ent>, last: u64) -> Seq<Ent> {
    if last == u64::MAX {
        Seq::empty()
    } else {
        let x = (last + 1) as u64;
        let i = below(es, x);
        if holds(es, i, x) {
            seq![Ent { start: x, ..es[i] }] + es.skip(i + 1)
        } else {
            es.skip(i)
        }
    }
}

/// The entry for the stored range itself; a null pointer leaves a hole.
pub open spec fn middle(index: u64, last: u64, entry: u64) -> Seq<Ent> {
    if entry == 0 {
        Seq::empty()
    } else {
        seq![Ent { start: index, last, ptr: entry }]
    }
}

/// The ranges after `entry` is stored over `index..=last`.
pub open spec fn stored(es: Seq<Ent>, index: u64, last: u64, entry: u64) -> Seq<Ent> {
    appended(appended(left_of(es, index), middle(index, last, entry)), right_of(es, last))
}

pub proof fn lemma_below(es: Seq<Ent>, x: u64)
    ensures
        0 <= below(es, x) <= es.len(),
        forall|k: int| 0 <= k < below(es, x) ==> (#[trigger] es[k]).last < x,
        below(es, x) < es.len() ==> es[below(es, x)].last >= x,
    decreases es.len(),
{
    if es.len() > 0 && es[0].last < x {
        let t = es.drop_first();
        lemma_below(t, x);
        assert forall|k: int| 0 <= k < below(es, x) implies (#[trigger] es[k]).last < x by {
            if k > 0 {
                assert(es[k] == t[k - 1]);
            }
        }
        if below(es, x) < es.len() {
            assert(es[below(es, x)] == t[below(t, x)]);
        }
    }
}

/// Where `x` splits an ordered array, and how to recognise the place.
pub proof fn lemma_split_at(es: Seq<Ent>, x: u64, i: int)
    requires
        ordered(es),
        0 <= i <= es.len(),
        i > 0 ==> es[i - 1].last < x,
        i < es.len() ==> es[i].last >= x,
    ensures
        below(es, x) == i,
{
    lemma_below(es, x);
    let b = below(es, x);
    if b < i {
        assert(es[b].last >= x);
        if b < i - 1 {
            assert(es[b].last < es[i - 1].start);
        }
    }
    if b > i {
        assert(es[i].last < x);
    }
}

/// An address has the pointer of the entry that holds it.
pub proof fn lemma_lookup(es: Seq<Ent>, i: int, x: u64)
    requires
        ordered(es),
        holds(es, i, x),
    ensures
        below(es, x) == i,
        lookup(es, x) == es[i].ptr,
{
    if i > 0 {
        assert(es[i - 1].last < es[i].start);
    }
    lemma_split_at(es, x, i);
}

/// An address that no entry holds has no pointer.
pub proof fn lemma_lookup_none(es: Seq<Ent>, x: u64)
    requires
        ordered(es),
    ensures
        lookup(es, x) == 0 <==> forall|i: int| !#[trigger] holds(es, i, x),
        lookup(es, x) != 0 ==> holds(es, below(es, x), x),
{
    lemma_below(es, x);
    if lookup(es, x) == 0 {
        assert forall|i: int| !#[trigger] holds(es, i, x) by {
            if holds(es, i, x) {
                lemma_lookup(es, i, x);
            }
        }
    }
}

proof fn lemma_joined(es: Seq<Ent>, e: Ent, x: u64)
    requires
        ents_ok(es),
        e.start <= e.last,
        e.ptr != 0,
        es.len() > 0 ==> es.last().last < e.start,
    ensures
        ents_ok(joined(es, e)),
        joined(es, e).len() > 0,
        joined(es, e).last().last == e.last,
        lookup(joined(es, e), x) == if e.start <= x <= e.last {
            e.ptr
        } else {
            lookup(es, x)
        },
{
    let r = joined(es, e);
    let n = es.len() as int;
    let joins = n > 0 && adjoins(es.last(), e);
    assert forall|i: int, j: int| 0 <= i < j < r.len() implies (#[trigger] r[i]).last < (
    #[trigger] r[j]).start by {
        if j < n {
            assert(es[i].last < es[j].start);
        } else if i < n - 1 {
            assert(es[i].last < es[n - 1].start);
        }
    }
    assert(ordered(r));
    assert forall|i: int| 0 <= i < r.len() - 1 implies #[trigger] parted(r, i) by {
        if i < n - 1 {
            assert(parted(es, i));
        }
    }
    lemma_lookup_none(es, x);
    lemma_lookup_none(r, x);
    if e.start <= x <= e.last {
        assert(holds(r, r.len() - 1, x));
        lemma_lookup(r, r.len() - 1, x);
    } else {
        if lookup(es, x) != 0 {
            let i = below(es, x);
            assert(holds(r, i, x));
            lemma_lookup(r, i, x);
        }
        if lookup(r, x) != 0 {
            let i = below(r, x);
            assert(holds(es, i, x));
            lemma_lookup(es, i, x);
        }
    }
}

proof fn lemma_appended(a: Seq<Ent>, b: Seq<Ent>, x: u64)
    requires
        ents_ok(a),
        ordered(b),
        a.len() > 0 && b.len() > 0 ==> a.last().last < b[0].start,
    ensures
        ents_ok(appended(a, b)),
        b.len() > 0 ==> appended(a, b).len() > 0 && appended(a, b).last().last == b.last().last,
        lookup(appended(a, b), x) == if lookup(b, x) != 0 {
            lookup(b, x)
        } else {
            lookup(a, x)
        },
    decreases b.len(),
{
    lemma_lookup_none(b, x);
    if b.len() > 0 {
        let c = b.drop_last();
        let e = b.last();
        assert(ordered(c)) by {
            assert forall|i: int, j: int| 0 <= i < j < c.len() implies (#[trigger] c[i]).last < (
            #[trigger] c[j]).start by {
                assert(b[i].last < b[j].start);
            }
            assert forall|i: int| 0 <= i < c.len() implies (#[trigger] c[i]).start <= c[i].last
                && c[i].ptr != 0 by {
                assert(b[i].start <= b[i].last);
            }
        }
        lemma_appended(a, c, x);
        let m = appended(a, c);
        if c.len() > 0 {
            assert(b[c.len() - 1].last < b[c.len() as int].start);
        }
        lemma_joined(m, e, x);
        lemma_lookup_none(c, x);
        if e.start <= x <= e.last {
            assert(holds(b, b.len() - 1, x));
            lemma_lookup(b, b.len() - 1, x);
        } else {
            if lookup(b, x) != 0 {
                let i = below(b, x);
                assert(holds(c, i, x));
                lemma_lookup(c, i, x);
            }
            if lookup(c, x) != 0 {
                let i = below(c, x);
                assert(holds(b, i, x));
                lemma_lookup(b, i, x);
            }
        }
    }
}

proof fn lemma_left(es: Seq<Ent>, index: u64, x: u64)
    requires
        ents_ok(es),
    ensures
        ents_ok(left_of(es, index)),
        left_of(es, index).len() > 0 ==> left_of(es, index).last().last < index,
        lookup(left_of(es, index), x) == if x < index {
            lookup(es, x)
        } else {
            0
        },
{
    lemma_below(es, index);
    let b = below(es, index);
    let l = left_of(es, index);
    assert forall|i: int| 0 <= i < l.len() implies (#[trigger] l[i]).start == es[i].start && l[i].ptr
        == es[i].ptr && l[i].last <= es[i].last && l[i].last < index && (i < b ==> l[i] == es[i])
        && l[i].start <= l[i].last && l[i].ptr != 0 && (l[i].last < es[i].last ==> l[i].last + 1
        == index) by {
        assert(es[i].start <= es[i].last);
    }
    assert forall|i: int, j: int| 0 <= i < j < l.len() implies (#[trigger] l[i]).last < (
    #[trigger] l[j]).start by {
        assert(es[i].last < es[j].start);
    }
    assert(ordered(l));
    assert forall|i: int| 0 <= i < l.len() - 1 implies #[trigger] parted(l, i) by {
        assert(parted(es, i));
        assert(l[i + 1].start == es[i + 1].start);
    }
    lemma_lookup_none(es, x);
    lemma_lookup_none(l, x);
    if lookup(l, x) != 0 {
        let i = below(l, x);
        assert(l[i].last <= es[i].last);
        assert(holds(es, i, x));
        lemma_lookup(es, i, x);
    }
    if x < index && lookup(es, x) != 0 {
        let i = below(es, x);
        if i > b {
            assert(es[b].last < es[i].start);
        }
        assert(i < l.len());
        assert(l[i].start == es[i].start);
        assert(holds(l, i, x));
        lemma_lookup(l, i, x);
    }
}

proof fn lemma_right(es: Seq<Ent>, last: u64, x: u64)
    requires
        ents_ok(es),
    ensures
        ents_ok(right_of(es, last)),
        right_of(es, last).len() > 0 ==> right_of(es, last)[0].start > last,
        lookup(right_of(es, last), x) == if x > last {
            lookup(es, x)
        } else {
            0
        },
{
    let r = right_of(es, last);
    if last < u64::MAX {
        let y = (last + 1) as u64;
        lemma_below(es, y);
        let b = below(es, y);
        assert forall|i: int| 0 <= i < r.len() implies (#[trigger] r[i]).last == es[b + i].last
            && r[i].ptr == es[b + i].ptr && r[i].start >= es[b + i].start && r[i].start > last && (i
            > 0 ==> r[i] == es[b + i]) && r[i].start <= r[i].last && r[i].ptr != 0 && (r[i].start
            > es[b + i].start ==> r[i].start == y) by {
            assert(es[b + i].start <= es[b + i].last);
            if i > 0 {
                assert(es[b].last < es[b + i].start);
            }
        }
        assert forall|i: int, j: int| 0 <= i < j < r.len() implies (#[trigger] r[i]).last < (
        #[trigger] r[j]).start by {
            assert(es[b + i].last < es[b + j].start);
        }
        assert(ordered(r));
        assert forall|i: int| 0 <= i < r.len() - 1 implies #[trigger] parted(r, i) by {
            assert(parted(es, b + i));
            assert(r[i + 1] == es[b + i + 1]);
        }
        lemma_lookup_none(es, x);
        lemma_lookup_none(r, x);
        if lookup(r, x) != 0 {
            let i = below(r, x);
            assert(r[i].start >= es[b + i].start);
            assert(holds(es, b + i, x));
            lemma_lookup(es, b + i, x);
        }
        if x > last && lookup(es, x) != 0 {
            let i = below(es, x);
            if i < b {
                assert(es[i].last < y);
            }
            assert(r[i - b].last == es[b + (i - b)].last);
            assert(holds(r, i - b, x));
            lemma_lookup(r, i - b, x);
        }
    }
}

/// Reading after a store: the stored range gives the new pointer, every other
/// address what it gave before. The array stays ordered and coalesced.
pub proof fn law_store_lookup(es: Seq<Ent>, index: u64, last: u64, entry: u64, x: u64)
    requires
        ents_ok(es),
        index <= last,
    ensures
        ents_ok(stored(es, index, last, entry)),
        lookup(stored(es, index, last, entry), x) == if index <= x <= last {
            entry
        } else {
            lookup(es, x)
        },
{
    let l = left_of(es, index);
    let m = middle(index, last, entry);
    let r = right_of(es, last);
    lemma_left(es, index, x);
    lemma_right(es, last, x);
    assert(ordered(m));
    lemma_lookup_none(m, x);
    if entry != 0 && index <= x <= last {
        assert(holds(m, 0, x));
        lemma_lookup(m, 0, x);
    }
    lemma_appended(l, m, x);
    let lm = appended(l, m);
    if entry == 0 {
        assert(lm == l);
    }
    lemma_appended(lm, r, x);
}

/// Appending does not shorten, and every joined entry shortens by one.
proof fn lemma_appended_len(a: Seq<Ent>, b: Seq<Ent>)
    requires
        ents_ok(b),
    ensures
        b.len() > 0 ==> appended(a, b).len() == a.len() + b.len() - if a.len() > 0 && adjoins(
            a.last(),
            b[0],
        ) {
            1int
        } else {
            0
        },
        b.len() > 0 ==> appended(a, b).last().last == b.last().last && appended(a, b).last().ptr
            == b.last().ptr,
    decreases b.len(),
{
    if b.len() > 0 {
        let c = b.drop_last();
        lemma_ok_take(b, b.len() - 1);
        assert(c =~= b.take(b.len() - 1));
        lemma_appended_len(a, c);
        let m = appended(a, c);
        if c.len() > 0 {
            assert(parted(b, b.len() - 2));
            assert(c.last() == b[b.len() - 2]);
            assert(c[0] == b[0]);
            assert(m.len() > 0);
            assert(!adjoins(m.last(), b.last()));
        } else {
            assert(m == a);
            assert(b.last() == b[0]);
        }
    }
}

proof fn lemma_ok_take(es: Seq<Ent>, n: int)
    requires
        ents_ok(es),
        0 <= n <= es.len(),
    ensures
        ents_ok(es.take(n)),
{
    let t = es.take(n);
    assert forall|i: int, j: int| 0 <= i < j < t.len() implies (#[trigger] t[i]).last < (
    #[trigger] t[j]).start by {
        assert(es[i].last < es[j].start);
    }
    assert forall|i: int| 0 <= i < t.len() implies (#[trigger] t[i]).start <= t[i].last && t[i].ptr
        != 0 by {
        assert(es[i].start <= es[i].last);
    }
    assert forall|i: int| 0 <= i < t.len() - 1 implies #[trigger] parted(t, i) by {
        assert(parted(es, i));
    }
}

/// Appending entry by entry only grows.
proof fn lemma_appended_grows(a: Seq<Ent>, b: Seq<Ent>, k: int)
    requires
        0 <= k <= b.len(),
    ensures
        a.len() <= appended(a, b.take(k)).len() <= appended(a, b).len(),
    decreases b.len(),
{
    if b.len() == 0 {
        assert(b.take(k) =~= b);
    } else if k == b.len() {
        assert(b.take(k) =~= b);
        assert(b.drop_last().take(b.len() - 1) =~= b.drop_last());
        lemma_appended_grows(a, b.drop_last(), b.len() - 1);
    } else {
        assert(b.drop_last().take(k) =~= b.take(k));
        lemma_appended_grows(a, b.drop_last(), k);
    }
}

/// Number of ranges after a store, by its parts.
proof fn lemma_stored_len(es: Seq<Ent>, index: u64, last: u64, entry: u64)
    requires
        ents_ok(es),
        index <= last,
    ensures
        ({
            let l = left_of(es, index);
            let r = right_of(es, last);
            stored(es, index, last, entry).len() == l.len() + r.len() + if entry == 0 {
                0int
            } else {
                1 - (if l.len() > 0 && l.last().last + 1 == index && l.last().ptr == entry {
                    1int
                } else {
                    0
                }) - (if r.len() > 0 && last + 1 == r[0].start && r[0].ptr == entry {
                    1int
                } else {
                    0
                })
            }
        }),
{
    let l = left_of(es, index);
    let m = middle(index, last, entry);
    let r = right_of(es, last);
    lemma_left(es, index, 0);
    lemma_right(es, last, 0);
    assert(ents_ok(m));
    lemma_appended_len(l, m);
    lemma_appended_len(appended(l, m), r);
}

/// Position of the first entry that ends at or behind `index`.
pub fn first_ge(es: &Vec<Ent>, index: u64) -> (r: Option<usize>)
    requires
        ordered(es@),
    ensures
        r is None <==> below(es@, index) == es@.len(),
        r matches Some(i) ==> i == below(es@, index) && i < es@.len(),
{
    let mut lo: usize = 0;
    let mut hi: usize = es.len();
    while lo < hi
        invariant
            ordered(es@),
            lo <= hi <= es@.len(),
            forall|k: int| 0 <= k < lo ==> (#[trigger] es@[k]).last < index,
            hi < es@.len() ==> es@[hi as int].last >= index,
        decreases hi - lo,
    {
        let mid = lo + (hi - lo) / 2;
        if es[mid].last < index {
            assert forall|k: int| 0 <= k < mid + 1 implies (#[trigger] es@[k]).last < index by {
                if k < mid {
                    assert(es@[k].last < es@[mid as int].start);
                    assert(es@[mid as int].start <= es@[mid as int].last);
                }
            }
            lo = mid + 1;
        } else {
            hi = mid;
        }
    }
    proof {
        lemma_split_at(es@, index, lo as int);
    }
    if lo < es.len() {
        Some(lo)
    } else {
        None
    }
}

/// Position of the entry that holds `index`.
pub fn covering(es: &Vec<Ent>, index: u64) -> (r: Option<usize>)
    requires
        ordered(es@),
    ensures
        r is Some <==> lookup(es@, index) != 0,
        r matches Some(i) ==> holds(es@, i as int, index) && i == below(es@, index) && es@[i as int].ptr
            == lookup(es@, index),
{
    proof {
        lemma_below(es@, index);
    }
    match first_ge(es, index) {
        None => None,
        Some(i) => if es[i].start <= index {
            assert(es@[i as int].ptr != 0);
            Some(i)
        } else {
            None
        },
    }
}

/// Position of the last entry that ends before `index`.
pub fn last_lt(es: &Vec<Ent>, index: u64) -> (r: Option<usize>)
    requires
        ordered(es@),
    ensures
        r is Some <==> below(es@, index) > 0,
        r matches Some(i) ==> i == below(es@, index) - 1 && i < es@.len(),
{
    proof {
        lemma_below(es@, index);
    }
    if es.len() == 0 || index == 0 {
        return None;
    }
    match first_ge(es, index) {
        None => Some(es.len() - 1),
        Some(i) => if i == 0 {
            None
        } else {
            Some(i - 1)
        },
    }
}

/// The end of what lies before `index`.
proof fn lemma_left_end(es: Seq<Ent>, index: u64)
    requires
        ents_ok(es),
    ensures
        ({
            let i = below(es, index);
            let l = left_of(es, index);
            if i < es.len() && es[i].start < index {
                &&& l.len() == i + 1
                &&& l.last().last + 1 == index
                &&& l.last().ptr == es[i].ptr
            } else {
                &&& l.len() == i
                &&& i > 0 ==> l.last() == es[i - 1]
            }
        }),
{
    lemma_below(es, index);
}

/// The start of what lies behind `last`.
proof fn lemma_right_start(es: Seq<Ent>, index: u64, last: u64, o: int)
    requires
        ents_ok(es),
        index <= last,
        below(es, index) <= o <= es.len(),
        forall|k: int| below(es, index) <= k < o ==> (#[trigger] es[k]).start <= last,
        o < es.len() ==> es[o].start > last,
    ensures
        ({
            let r = right_of(es, last);
            if o > 0 && es[o - 1].last > last {
                &&& r.len() == es.len() - o + 1
                &&& r[0].start == last + 1
                &&& r[0].ptr == es[o - 1].ptr
            } else {
                &&& r.len() == es.len() - o
                &&& o < es.len() ==> r[0] == es[o]
            }
        }),
{
    lemma_below(es, index);
    lemma_right_at(es, index, last, o);
    assert(es.skip(o).len() == es.len() - o);
    if o < es.len() {
        assert(es.skip(o)[0] == es[o]);
    }
}

/// Storing a hole over an entry takes away that entry.
pub proof fn law_hole_shrinks(es: Seq<Ent>, i: int)
    requires
        ents_ok(es),
        0 <= i < es.len(),
    ensures
        stored(es, es[i].start, es[i].last, 0).len() == es.len() - 1,
{
    let e = es[i];
    assert forall|k: int| 0 <= k < i implies (#[trigger] es[k]).last < e.start by {
        assert(es[k].last < es[i].start);
    }
    lemma_split_at(es, e.start, i);
    lemma_stored_len(es, e.start, e.last, 0);
    lemma_left_end(es, e.start);
    lemma_right_start(es, e.start, e.last, i + 1);
}

/// Number of ranges after `entry` is stored over `index..=last`.
pub fn store_need(old: &Vec<Ent>, index: u64, last: u64, entry: u64) -> (r: u64)
    requires
        ents_ok(old@),
        index <= last,
        old@.len() <= u32::MAX,
    ensures
        r == stored(old@, index, last, entry).len(),
{
    let ghost es = old@;
    let mut o: usize = 0;
    while o < old.len() && old[o].last < index
        invariant
            old@ == es,
            o <= es.len() <= u32::MAX,
            o > 0 ==> es[o - 1].last < index,
        decreases es.len() - o,
    {
        o = o + 1;
    }
    proof {
        lemma_split_at(es, index, o as int);
        lemma_stored_len(es, index, last, entry);
        lemma_left_end(es, index);
    }
    let ghost b = o as int;
    let mut n: u64 = o as u64;
    let mut joins: bool = false;
    if o < old.len() && old[o].start < index {
        n = n + 1;
        joins = old[o].ptr == entry;
    } else if o > 0 && old[o - 1].last + 1 == index {
        joins = old[o - 1].ptr == entry;
    }
    if entry != 0 && !joins {
        n = n + 1;
    }
    while o < old.len() && old[o].start <= last
        invariant
            old@ == es,
            b <= o <= es.len(),
            forall|k: int| b <= k < o ==> (#[trigger] es[k]).start <= last,
        decreases es.len() - o,
    {
        o = o + 1;
    }
    proof {
        lemma_right_start(es, index, last, o as int);
    }
    let right = o > 0 && old[o - 1].last > last;
    let mut joins_right: bool = false;
    if right {
        n = n + 1;
        joins_right = old[o - 1].ptr == entry;
    } else if o < old.len() && old[o].start - 1 == last {
        joins_right = old[o].ptr == entry;
    }
    n = n + (old.len() - o) as u64;
    if entry != 0 && joins_right {
        n = n - 1;
    }
    n
}

/// What lies behind `last`, by the number `o` of entries that start at or before it.
proof fn lemma_right_at(es: Seq<Ent>, index: u64, last: u64, o: int)
    requires
        ents_ok(es),
        index <= last,
        below(es, index) <= o <= es.len(),
        forall|k: int| below(es, index) <= k < o ==> (#[trigger] es[k]).start <= last,
        o < es.len() ==> es[o].start > last,
    ensures
        o > 0 && es[o - 1].last > last ==> right_of(es, last) == seq![
            Ent { start: (last + 1) as u64, ..es[o - 1] },
        ] + es.skip(o),
        !(o > 0 && es[o - 1].last > last) ==> right_of(es, last) == es.skip(o),
{
    lemma_below(es, index);
    if o > 0 {
        if o > below(es, index) {
            assert(es[o - 1].start <= last);
        } else {
            assert(es[o - 1].last < index);
            assert(es[o - 1].start <= es[o - 1].last);
        }
    }
    if last == u64::MAX {
        assert(o == es.len());
        assert(es.skip(o) =~= Seq::empty());
    } else {
        let x = (last + 1) as u64;
        if o > 0 && es[o - 1].last > last {
            if o > 1 {
                assert(es[o - 2].last < es[o - 1].start);
            }
            lemma_split_at(es, x, o - 1);
        } else {
            if o < es.len() {
                assert(es[o].start <= es[o].last);
            }
            lemma_split_at(es, x, o);
            if o < es.len() && es[o].start == x {
                assert(seq![Ent { start: x, ..es[o] }] + es.skip(o + 1) =~= es.skip(o));
            }
        }
    }
}

/// Puts `e` behind the entries of `dst`, unless that takes more than `cap`.
fn push_ent(dst: &mut Vec<Ent>, cap: u32, e: Ent) -> (r: bool)
    requires
        old(dst)@.len() <= cap,
    ensures
        r == (joined(old(dst)@, e).len() <= cap),
        final(dst)@ == if r {
            joined(old(dst)@, e)
        } else {
            old(dst)@
        },
{
    let n = dst.len();
    if n > 0 && dst[n - 1].last < u64::MAX && dst[n - 1].last + 1 == e.start && dst[n - 1].ptr
        == e.ptr {
        let t = dst[n - 1];
        dst[n - 1] = Ent { start: t.start, last: e.last, ptr: t.ptr };
        assert(dst@ =~= joined(old(dst)@, e));
        return true;
    }
    if n as u64 >= cap as u64 {
        return false;
    }
    dst.push(e);
    true
}

/// Builds what lies before `index`, or `None` if that is more than `cap` ranges.
fn fill_left(cap: u32, old: &Vec<Ent>, index: u64) -> (r: Option<Vec<Ent>>)
    requires
        ents_ok(old@),
    ensures
        r is None <==> left_of(old@, index).len() > cap,
        r matches Some(v) ==> v@ == left_of(old@, index),
{
    let ghost es = old@;
    let ghost l = left_of(es, index);
    let mut dst: Vec<Ent> = Vec::new();
    let mut o: usize = 0;
    proof {
        lemma_below(es, index);
        assert(es.take(0) =~= Seq::empty());
    }
    while o < old.len() && old[o].last < index
        invariant
            old@ == es,
            ents_ok(es),
            o <= below(es, index) <= es.len(),
            l.len() >= below(es, index),
            l == left_of(old@, index),
            dst@ == es.take(o as int),
            dst@.len() <= cap,
            below(es, index) < es.len() ==> es[below(es, index)].last >= index,
        decreases es.len() - o,
    {
        proof {
            if o > 0 {
                assert(parted(es, o - 1));
            }
            assert(joined(dst@, es[o as int]) =~= es.take(o + 1));
        }
        if !push_ent(&mut dst, cap, old[o]) {
            return None;
        }
        o = o + 1;
    }
    assert(o == below(es, index));
    if o < old.len() && old[o].start < index {
        let e = Ent { start: old[o].start, last: index - 1, ptr: old[o].ptr };
        proof {
            if o > 0 {
                assert(parted(es, o - 1));
            }
            assert(joined(dst@, e) =~= l);
        }
        if !push_ent(&mut dst, cap, e) {
            return None;
        }
    }
    assert(dst@ =~= l);
    Some(dst)
}

/// Puts what lies behind `last` behind `dst`, unless that takes more than `cap`.
fn append_right(dst: &mut Vec<Ent>, cap: u32, ents: &Vec<Ent>, last: u64) -> (r: bool)
    requires
        ents_ok(ents@),
        old(dst)@.len() <= cap,
    ensures
        r == (appended(old(dst)@, right_of(ents@, last)).len() <= cap),
        r ==> final(dst)@ == appended(old(dst)@, right_of(ents@, last)),
{
    let ghost es = ents@;
    let ghost lm = dst@;
    let ghost r = right_of(es, last);
    let mut o: usize = 0;
    proof {
        lemma_below(es, 0);
        assert(below(es, 0) == 0);
    }
    while o < ents.len() && ents[o].start <= last
        invariant
            ents@ == es,
            o <= es.len(),
            forall|k: int| 0 <= k < o ==> (#[trigger] es[k]).start <= last,
        decreases es.len() - o,
    {
        o = o + 1;
    }
    proof {
        lemma_right_at(es, 0, last, o as int);
    }
    let ghost mut k: int = 0;
    assert(r.take(0) =~= Seq::empty());
    if o > 0 && ents[o - 1].last > last {
        let e = Ent { start: last + 1, last: ents[o - 1].last, ptr: ents[o - 1].ptr };
        proof {
            assert(r.take(1).drop_last() =~= r.take(0));
            assert(r.take(1).last() == e);
            assert(appended(lm, r.take(0)) == lm);
            assert(appended(lm, r.take(1)) == joined(dst@, e));
            lemma_appended_grows(lm, r, 1);
            k = 1;
        }
        if !push_ent(dst, cap, e) {
            return false;
        }
    }
    let ghost base = o - k;
    while o < ents.len()
        invariant
            ents@ == es,
            o <= es.len(),
            0 <= k,
            k == o - base,
            r.len() == es.len() - base,
            forall|j: int| k <= j < r.len() ==> #[trigger] r[j] == es[base + j],
            dst@ == appended(lm, r.take(k)),
            dst@.len() <= cap,
            lm == old(dst)@,
            r == right_of(ents@, last),
        decreases es.len() - o,
    {
        let e = ents[o];
        proof {
            assert(r[k] == es[base + k]);
            assert(r.take(k + 1).drop_last() =~= r.take(k));
            assert(appended(lm, r.take(k + 1)) == joined(dst@, e));
            lemma_appended_grows(lm, r, k + 1);
            k = k + 1;
        }
        if !push_ent(dst, cap, e) {
            return false;
        }
        o = o + 1;
    }
    assert(r.take(k) =~= r);
    true
}

/// Builds the ranges after a store, or `None` if there are more than `cap`.
pub fn fill_store(cap: u32, old: &Vec<Ent>, index: u64, last: u64, entry: u64) -> (r: Option<
    Vec<Ent>,
>)
    requires
        ents_ok(old@),
        index <= last,
    ensures
        r is None <==> stored(old@, index, last, entry).len() > cap,
        r matches Some(v) ==> v@ == stored(old@, index, last, entry),
{
    let ghost l = left_of(old@, index);
    let ghost m = middle(index, last, entry);
    let ghost r = right_of(old@, last);
    proof {
        lemma_appended_grows(l, m, 0);
        lemma_appended_grows(appended(l, m), r, 0);
        if entry != 0 {
            assert(m.drop_last() =~= Seq::empty());
            assert(appended(l, m) == joined(l, m[0]));
        }
    }
    match fill_left(cap, old, index) {
        None => None,
        Some(v) => {
            let mut dst = v;
            if entry != 0 && !push_ent(&mut dst, cap, Ent { start: index, last, ptr: entry }) {
                return None;
            }
            if !append_right(&mut dst, cap, old, last) {
                return None;
            }
            Some(dst)
        },
    }
}

/// Two arrays that hold the same pointer at every address are the same array.
pub proof fn law_canonical(a: Seq<Ent>, b: Seq<Ent>)
    requires
        ents_ok(a),
        ents_ok(b),
        forall|x: u64| #[trigger] lookup(a, x) == lookup(b, x),
    ensures
        a == b,
    decreases a.len() + b.len(),
{
    if a.len() == 0 && b.len() == 0 {
        assert(a =~= b);
    } else if a.len() == 0 {
        lemma_lookup(b, 0, b[0].start);
        assert(lookup(a, b[0].start) == 0);
    } else if b.len() == 0 {
        lemma_lookup(a, 0, a[0].start);
        assert(lookup(a, a[0].start) == lookup(b, a[0].start));
    } else {
        assert forall|x: u64| #[trigger] lookup(b, x) == lookup(a, x) by {
            assert(lookup(a, x) == lookup(b, x));
        }
        lemma_same_start(a, b);
        lemma_same_start(b, a);
        lemma_lookup(a, 0, a[0].start);
        lemma_lookup(b, 0, b[0].start);
        assert(lookup(a, a[0].start) == lookup(b, a[0].start));
        lemma_same_last(a, b);
        lemma_same_last(b, a);
        let c = a.drop_first();
        let d = b.drop_first();
        lemma_ok_rest(a);
        lemma_ok_rest(b);
        assert forall|x: u64| #[trigger] lookup(c, x) == lookup(d, x) by {
            lemma_lookup_rest(a, x);
            lemma_lookup_rest(b, x);
            assert(lookup(a, x) == lookup(b, x));
        }
        law_canonical(c, d);
        assert(a =~= seq![a[0]] + c);
        assert(b =~= seq![b[0]] + d);
    }
}

proof fn lemma_same_start(a: Seq<Ent>, b: Seq<Ent>)
    requires
        ents_ok(a),
        ents_ok(b),
        a.len() > 0,
        b.len() > 0,
        forall|x: u64| #[trigger] lookup(a, x) == lookup(b, x),
    ensures
        b[0].start <= a[0].start,
{
    let x = a[0].start;
    lemma_lookup(a, 0, x);
    assert(lookup(a, x) == lookup(b, x));
    lemma_lookup_none(b, x);
    let i = below(b, x);
    if i > 0 {
        assert(b[0].last < b[i].start);
        assert(b[0].start <= b[0].last);
    }
}

proof fn lemma_same_last(a: Seq<Ent>, b: Seq<Ent>)
    requires
        ents_ok(a),
        ents_ok(b),
        a.len() > 0,
        b.len() > 0,
        a[0].start == b[0].start,
        a[0].ptr == b[0].ptr,
        forall|x: u64| #[trigger] lookup(a, x) == lookup(b, x),
    ensures
        a[0].last >= b[0].last,
{
    if a[0].last < b[0].last {
        let x = (a[0].last + 1) as u64;
        lemma_lookup(b, 0, x);
        assert(lookup(a, x) == lookup(b, x));
        lemma_lookup_none(a, x);
        let i = below(a, x);
        assert(i > 0);
        if i > 1 {
            assert(a[0].last < a[1].start);
            assert(a[1].start <= a[1].last);
            assert(a[1].last < a[i].start);
        }
        assert(a[0].last < a[1].start);
        assert(parted(a, 0));
    }
}

proof fn lemma_ok_rest(es: Seq<Ent>)
    requires
        ents_ok(es),
        es.len() > 0,
    ensures
        ents_ok(es.drop_first()),
{
    let t = es.drop_first();
    assert forall|i: int, j: int| 0 <= i < j < t.len() implies (#[trigger] t[i]).last < (
    #[trigger] t[j]).start by {
        assert(es[i + 1].last < es[j + 1].start);
    }
    assert forall|i: int| 0 <= i < t.len() implies (#[trigger] t[i]).start <= t[i].last && t[i].ptr
        != 0 by {
        assert(es[i + 1].start <= es[i + 1].last);
    }
    assert forall|i: int| 0 <= i < t.len() - 1 implies #[trigger] parted(t, i) by {
        assert(parted(es, i + 1));
    }
}

proof fn lemma_lookup_rest(es: Seq<Ent>, x: u64)
    requires
        ents_ok(es),
        es.len() > 0,
    ensures
        lookup(es.drop_first(), x) == if x > es[0].last {
            lookup(es, x)
        } else {
            0
        },
{
    let t = es.drop_first();
    lemma_ok_rest(es);
    lemma_lookup_none(es, x);
    lemma_lookup_none(t, x);
    if lookup(t, x) != 0 {
        let i = below(t, x);
        assert(es[0].last < es[i + 1].start);
        assert(holds(es, i + 1, x));
        lemma_lookup(es, i + 1, x);
    }
    if x > es[0].last && lookup(es, x) != 0 {
        let i = below(es, x);
        assert(holds(t, i - 1, x));
        lemma_lookup(t, i - 1, x);
    }
}

/// A store adds at most two ranges.
pub proof fn law_store_grows_by_two(es: Seq<Ent>, index: u64, last: u64, entry: u64)
    requires
        ents_ok(es),
        index <= last,
    ensures
        stored(es, index, last, entry).len() <= es.len() + 2,
{
    lemma_stored_len(es, index, last, entry);
    lemma_left_end(es, index);
    lemma_below(es, index);
    if last < u64::MAX {
        let x = (last + 1) as u64;
        lemma_below(es, x);
        if below(es, x) < below(es, index) {
            assert(es[below(es, x)].last < index);
        }
    }
}

} // verus!
