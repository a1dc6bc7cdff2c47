//! How a sequencer and its caller take turns.
//!
//! A sequencer decides which helper of the system runs next; its caller runs
//! the helper and passes the outcome back as an event.

use vstd::prelude::*;

verus! {

/// What a sequencer needs next. `C` names the helpers, `R` is the result.
#[derive(PartialEq, Eq, Debug)]
pub enum Step<C, R> {
    /// Run the helper and pass its outcome back.
    Call(C),
    /// Run the helper; its result is the result.
    Tail(C),
    /// Run the helper, then return this.
    Finish(C, R),
    /// Return this.
    Return(R),
    /// The helper gave a kind that is not known: log it and return this.
    Reject(R),
    /// The helper gave a kind that is not known: log it, run this one to clean up,
    /// then return this.
    Abort(C, R),
    /// The helper gave a kind that is not known: log it and run this one; its
    /// result is the result.
    RejectTail(C),
}

/// What happened since the last step, for a sequencer with one decision.
#[derive(PartialEq, Eq, Debug)]
pub enum Event<T> {
    /// The sequencer is entered.
    Enter,
    /// The first helper has run and gave this kind and result.
    Classified { kind: i32, out: T },
}

/// How a sequencer begins: with live arguments it clears the flag and asks for its
/// first helper, else it fails and leaves the flag alone.
pub open spec fn begun<C, R>(
    live: bool,
    first: C,
    fail: R,
    before: i32,
    after: i32,
    r: Step<C, R>,
) -> bool {
    if live {
        after == 0 && r == Step::<C, R>::Call(first)
    } else {
        after == before && r == Step::<C, R>::Return(fail)
    }
}

/// How a sequencer is entered: a null pointer, and nothing else, makes it fail at once and
/// leave the flag alone; else it clears the flag and runs `first`.
pub open spec fn enters<C, R>(
    pointers: Set<u64>,
    before: i32,
    after: i32,
    first: C,
    fail: R,
    r: Step<C, R>,
) -> bool {
    &&& r is Return <==> pointers.contains(0)
    &&& r is Call <==> !pointers.contains(0)
    &&& r matches Step::Return(result) ==> result == fail && after == before
    &&& r matches Step::Call(call) ==> call == first && after == 0
}

/// How a sequencer takes the kind of an answer: each kind of `known` leads to its step, and
/// exactly the kinds that it lacks are refused, by `unknown`.
pub open spec fn sorted<C, R>(
    kind: i32,
    known: Map<i32, Step<C, R>>,
    unknown: Step<C, R>,
    r: Step<C, R>,
) -> bool {
    &&& r is Reject || r is Abort || r is RejectTail <==> !known.dom().contains(kind)
    &&& r == if known.dom().contains(kind) {
        known[kind]
    } else {
        unknown
    }
}

/// The count after one more, and whether that was the first.
pub open spec fn counted(seen: u32) -> (u32, bool) {
    (
        if seen == u32::MAX {
            0
        } else {
            (seen + 1) as u32
        },
        seen == 0,
    )
}

/// Counting starts at 0 and comes round to it after all 32-bit numbers; only there it is the
/// first.
pub proof fn law_counted(seen: u32)
    ensures
        counted(seen).0 as int == (seen + 1) % 0x1_0000_0000,
        counted(seen).1 <==> seen == 0,
{
}

/// Counts one more and tells whether it was the first. The count wraps around.
pub fn count_first(seen: &mut u32) -> (r: bool)
    ensures
        (*final(seen), r) == counted(*old(seen)),
{
    let before = *seen;
    *seen = before.wrapping_add(1);
    before == 0
}

} // verus!
