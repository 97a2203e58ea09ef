//! What a least-first traversal takes first, measured against a walk to a goal.
use crate::coherence::{coherent, lemma_foremost_in_range, settled, waiting};
use crate::model::{child, expand, foremost, note, pick, precedes, Entry, Frame, Order, Rule};
use crate::state::{follow, passes, viable, visits, State};
use std::cmp::Ordering;
use vstd::prelude::*;
use vstd::std_specs::cmp::OrdSpec;

verus! {

/// `a` does not come after `b` in the order of costs.
pub open spec fn at_most<C: Ord>(a: C, b: C) -> bool {
    !(b.cmp_spec(&a) == Ordering::Less)
}

/// The order of costs is total and transitive.
pub open spec fn ordered<C: Ord>() -> bool {
    &&& forall|a: C, b: C| #[trigger] at_most(a, b) || at_most(b, a)
    &&& forall|a: C, b: C, c: C| #[trigger] at_most(a, b) && #[trigger] at_most(b, c) ==> at_most(a, c)
}

/// In a total order every cost is at most itself.
pub proof fn lemma_at_most_itself<C: Ord>(a: C)
    requires
        ordered::<C>(),
    ensures
        at_most(a, a),
{
    assert(at_most(a, a) || at_most(a, a));
}

/// The rule takes the least first, and an entry that it takes before another
/// has a `key` that is at most the other's.
pub open spec fn keyed<S: State, P, C: Ord>(rule: Rule<S, P>, key: spec_fn(P) -> C) -> bool {
    &&& rule.order == Order::LeastFirst
    &&& forall|x: Entry<S, P>, y: Entry<S, P>|
        (#[trigger] precedes(rule, x, y) ==> at_most(key(x.score), key(y.score))) && (!precedes(
            rule,
            x,
            y,
        ) ==> at_most(key(y.score), key(x.score)))
}

/// Every waiting entry is on record with its score.
pub open spec fn booked<S: State, P>(frame: Frame<S, P>, book: Map<S, P>) -> bool {
    forall|i: int|
        0 <= i < frame.open.len() ==> book.dom().contains((#[trigger] frame.open[i]).state)
            && book[frame.open[i].state] == frame.open[i].score
}

/// No state that the walk comes through is on record with a key above `bound`.
pub open spec fn unhindered<S: State, P, C: Ord>(
    book: Map<S, P>,
    key: spec_fn(P) -> C,
    start: S,
    walk: Seq<S::Action>,
    bound: C,
) -> bool {
    forall|s: S| #[trigger] visits(start, walk, s) && book.dom().contains(s) ==> at_most(key(book[s]), bound)
}

/// Among the first `n` waiting entries none has a smaller key than the one
/// that is taken first.
pub proof fn lemma_foremost_least<S: State, P, C: Ord>(
    rule: Rule<S, P>,
    key: spec_fn(P) -> C,
    open: Seq<Entry<S, P>>,
    n: nat,
)
    requires
        ordered::<C>(),
        keyed(rule, key),
        0 < n <= open.len(),
    ensures
        0 <= foremost(rule, open, n) < n,
        forall|i: int|
            0 <= i < n ==> at_most(key(open[foremost(rule, open, n)].score), key((#[trigger] open[i]).score)),
    decreases n,
{
    lemma_foremost_in_range(rule, open, n);
    if n > 1 {
        let m = (n - 1) as nat;
        lemma_foremost_least(rule, key, open, m);
        let held = open[foremost(rule, open, m)];
        let cand = open[n - 1];
        lemma_at_most_itself(key(cand.score));
        if precedes(rule, cand, held) {
            assert forall|i: int| 0 <= i < n implies at_most(key(cand.score), key((#[trigger] open[i]).score)) by {
                if i < n - 1 {
                    assert(at_most(key(held.score), key(open[i].score)));
                    assert(at_most(key(cand.score), key(held.score)));
                }
            }
        } else {
            assert(at_most(key(held.score), key(cand.score)));
        }
    } else {
        lemma_at_most_itself(key(open[0].score));
    }
}

/// Expanding an entry puts every entry it queues on record.
pub proof fn lemma_note<S: State, P>(
    rule: Rule<S, P>,
    rest: Frame<S, P>,
    book: Map<S, P>,
    parent: Entry<S, P>,
    acts: Seq<S::Action>,
    k: nat,
)
    requires
        booked(rest, book),
        forall|i: int| 0 <= i < rest.open.len() ==> rest.seen.contains((#[trigger] rest.open[i]).state),
        k <= acts.len(),
    ensures
        booked(expand(rule, rest, parent, acts, k), note(rule, rest, book, parent, acts, k)),
        forall|i: int|
            0 <= i < expand(rule, rest, parent, acts, k).open.len() ==> expand(
                rule,
                rest,
                parent,
                acts,
                k,
            ).seen.contains((#[trigger] expand(rule, rest, parent, acts, k).open[i]).state),
    decreases k,
{
    if k > 0 {
        lemma_note(rule, rest, book, parent, acts, (k - 1) as nat);
        let sofar = expand(rule, rest, parent, acts, (k - 1) as nat);
        let kept = note(rule, rest, book, parent, acts, (k - 1) as nat);
        let f = expand(rule, rest, parent, acts, k);
        let c = child(rule, parent, acts[k - 1]);
        if !sofar.seen.contains(c.state) {
            assert(f.open == sofar.open.push(c));
            assert forall|i: int| 0 <= i < f.open.len() implies kept.insert(c.state, c.score).dom().contains(
                (#[trigger] f.open[i]).state,
            ) && kept.insert(c.state, c.score)[f.open[i].state] == f.open[i].score by {
                if i < sofar.open.len() {
                    assert(f.open[i] == sofar.open[i]);
                    assert(sofar.seen.contains(sofar.open[i].state));
                }
            }
            assert forall|i: int| 0 <= i < f.open.len() implies f.seen.contains((#[trigger] f.open[i]).state) by {
                if i < sofar.open.len() {
                    assert(f.open[i] == sofar.open[i]);
                    assert(sofar.seen.contains(sofar.open[i].state));
                }
            }
        }
    }
}

/// The end of a part of an unhindered walk has been dealt with, unless an
/// entry whose key is at most the bound still waits.
proof fn lemma_cover<S: State, P, C: Ord>(
    goal: spec_fn(S) -> bool,
    start: S,
    frame: Frame<S, P>,
    book: Map<S, P>,
    key: spec_fn(P) -> C,
    walk: Seq<S::Action>,
    acts: Seq<S::Action>,
    bound: C,
)
    requires
        coherent(goal, start, frame),
        booked(frame, book),
        unhindered(book, key, start, walk, bound),
        viable(start, acts),
        forall|s: S| #[trigger] visits(start, acts, s) ==> visits(start, walk, s),
    ensures
        (frame.seen.contains(follow(start, acts)) && !waiting(frame, follow(start, acts))) || (exists|
            i: int,
        |
            0 <= i < frame.open.len() && at_most(key((#[trigger] frame.open[i]).score), bound)),
    decreases acts.len(),
{
    let target = follow(start, acts);
    assert(visits(start, acts, target));
    if acts.len() > 0 {
        let shorter = acts.drop_last();
        let from = follow(start, shorter);
        assert forall|s: S| #[trigger] visits(start, shorter, s) implies visits(start, walk, s) by {
            assert(visits(start, acts, s));
        }
        lemma_cover(goal, start, frame, book, key, walk, shorter, bound);
        if frame.seen.contains(from) && !waiting(frame, from) {
            assert(settled(goal, frame, from));
            let k = choose|k: int| 0 <= k < from.actions().len() && from.actions()[k] == acts.last();
            assert(frame.seen.contains(from.successor(&from.actions()[k])));
        }
    }
    if frame.seen.contains(target) && waiting(frame, target) {
        let i = choose|i: int| 0 <= i < frame.open.len() && (#[trigger] frame.open[i]).state == target;
        assert(at_most(key(frame.open[i].score), bound));
    }
}

/// Where an unhindered walk ends in a valid goal and the entry taken next is
/// a valid goal too, the key of that entry is at most the bound.
pub proof fn lemma_taken_within<S: State, P, C: Ord>(
    rule: Rule<S, P>,
    key: spec_fn(P) -> C,
    goal: spec_fn(S) -> bool,
    start: S,
    frame: Frame<S, P>,
    book: Map<S, P>,
    walk: Seq<S::Action>,
    bound: C,
)
    requires
        ordered::<C>(),
        keyed(rule, key),
        coherent(goal, start, frame),
        booked(frame, book),
        frame.open.len() > 0,
        viable(start, walk),
        passes(follow(start, walk)),
        goal(follow(start, walk)),
        unhindered(book, key, start, walk, bound),
    ensures
        0 <= pick(rule, frame.open) < frame.open.len(),
        at_most(key(frame.open[pick(rule, frame.open)].score), bound),
{
    lemma_foremost_least(rule, key, frame.open, frame.open.len());
    lemma_cover(goal, start, frame, book, key, walk, walk, bound);
    let target = follow(start, walk);
    let taken = frame.open[pick(rule, frame.open)];
    if frame.seen.contains(target) && !waiting(frame, target) {
        assert(settled(goal, frame, target));
    } else {
        let i = choose|i: int| 0 <= i < frame.open.len() && at_most(key((#[trigger] frame.open[i]).score), bound);
        assert(at_most(key(taken.score), key(frame.open[i].score)));
    }
}

} // verus!
