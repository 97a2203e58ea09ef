//! What holds of every frame of a traversal, and why each round keeps it.
use crate::model::{
    advance, child, expand, foremost, opening, pick, rounds_needed, run, Entry, Frame, Rule, Step,
};
use crate::state::{
    follow, lemma_start_reachable, lemma_successor_reachable, passes, reach, viable,
    State,
};
use vstd::prelude::*;
use vstd::set_lib::lemma_len_subset;

verus! {

/// Some waiting entry holds `s`.
pub open spec fn waiting<S: State, P>(frame: Frame<S, P>, s: S) -> bool {
    exists|i: int| 0 <= i < frame.open.len() && (#[trigger] frame.open[i]).state == s
}

/// `s` has been taken and dealt with: it is no valid goal, and if it is valid
/// then all its successors have been seen.
pub open spec fn settled<S: State, P>(goal: spec_fn(S) -> bool, frame: Frame<S, P>, s: S) -> bool {
    &&& !(goal(s) && passes(s))
    &&& passes(s) ==> forall|k: int|
        0 <= k < s.actions().len() ==> frame.seen.contains(s.successor(&(#[trigger] s.actions()[k])))
}

/// The waiting entries hold seen states, each once, at depths below the number
/// of seen states.
pub open spec fn orderly<S: State, P>(frame: Frame<S, P>) -> bool {
    &&& frame.seen.finite()
    &&& forall|i: int|
        0 <= i < frame.open.len() ==> frame.seen.contains((#[trigger] frame.open[i]).state)
    &&& forall|i: int|
        0 <= i < frame.open.len() ==> (#[trigger] frame.open[i]).depth < frame.seen.len()
    &&& forall|i: int, j: int|
        0 <= i < j < frame.open.len() ==> (#[trigger] frame.open[i]).state != (
        #[trigger] frame.open[j]).state
}

/// The invariant of a traversal from `start`.
pub open spec fn coherent<S: State, P>(goal: spec_fn(S) -> bool, start: S, frame: Frame<S, P>) -> bool {
    &&& orderly(frame)
    &&& frame.seen.contains(start)
    &&& frame.seen.subset_of(reach(start))
    &&& forall|s: S| #[trigger]
        frame.seen.contains(s) && !waiting(frame, s) ==> settled(goal, frame, s)
}

/// How much work is left at most: the reachable states not yet seen, and the
/// entries that wait.
pub open spec fn remaining<S: State, P>(start: S, frame: Frame<S, P>) -> nat {
    reach(start).difference(frame.seen).len() + frame.open.len()
}

/// The least-first choice among the first `n` entries is one of them.
pub proof fn lemma_foremost_in_range<S: State, P>(rule: Rule<S, P>, open: Seq<Entry<S, P>>, n: nat)
    requires
        0 < n <= open.len(),
    ensures
        0 <= foremost(rule, open, n) < n,
    decreases n,
{
    if n > 1 {
        lemma_foremost_in_range(rule, open, (n - 1) as nat);
    }
}

/// Whatever the order, the entry taken next is one of those that wait.
pub proof fn lemma_pick_in_range<S: State, P>(rule: Rule<S, P>, open: Seq<Entry<S, P>>)
    requires
        open.len() > 0,
    ensures
        0 <= pick(rule, open) < open.len(),
{
    lemma_foremost_in_range(rule, open, open.len());
}

/// Expanding a reachable, valid state keeps the frame orderly, sees every
/// successor handled so far, and trades each unseen state for a waiting entry.
pub proof fn lemma_expand<S: State, P>(
    rule: Rule<S, P>,
    start: S,
    rest: Frame<S, P>,
    parent: Entry<S, P>,
    k: nat,
)
    requires
        reach(start).finite(),
        orderly(rest),
        rest.seen.subset_of(reach(start)),
        reach(start).contains(parent.state),
        passes(parent.state),
        parent.depth < rest.seen.len(),
        k <= parent.state.actions().len(),
    ensures
        ({
            let f = expand(rule, rest, parent, parent.state.actions(), k);
            &&& orderly(f)
            &&& rest.seen.subset_of(f.seen)
            &&& f.seen.subset_of(reach(start))
            &&& rest.open.len() <= f.open.len()
            &&& forall|i: int| 0 <= i < rest.open.len() ==> #[trigger] f.open[i] == rest.open[i]
            &&& forall|i: int|
                rest.open.len() <= i < f.open.len() ==> !rest.seen.contains(
                    (#[trigger] f.open[i]).state,
                )
            &&& forall|s: S| #[trigger] f.seen.contains(s) && !rest.seen.contains(s) ==> waiting(f, s)
            &&& forall|j: int|
                0 <= j < k ==> f.seen.contains(
                    parent.state.successor(&(#[trigger] parent.state.actions()[j])),
                )
            &&& remaining(start, f) == remaining(start, rest)
        }),
    decreases k,
{
    if k > 0 {
        let acts = parent.state.actions();
        let g = expand(rule, rest, parent, acts, (k - 1) as nat);
        let f = expand(rule, rest, parent, acts, k);
        lemma_expand(rule, start, rest, parent, (k - 1) as nat);
        let c = child(rule, parent, acts[k - 1]);
        assert(acts.contains(acts[k - 1]));
        lemma_successor_reachable(start, parent.state, acts[k - 1]);
        if g.seen.contains(c.state) {
        } else {
            lemma_len_subset(rest.seen, g.seen);
            assert(f.seen == g.seen.insert(c.state));
            assert(f.open == g.open.push(c));
            assert(reach(start).difference(f.seen) =~= reach(start).difference(g.seen).remove(
                c.state,
            ));
            assert(reach(start).difference(g.seen).contains(c.state));
            assert(waiting(f, c.state)) by {
                assert(f.open[f.open.len() - 1].state == c.state);
            }
            assert forall|s: S| #[trigger] f.seen.contains(s) && !rest.seen.contains(s) implies waiting(
                f,
                s,
            ) by {
                if s != c.state {
                    assert(waiting(g, s));
                    let i = choose|i: int| 0 <= i < g.open.len() && (#[trigger] g.open[i]).state == s;
                    assert(f.open[i].state == s);
                }
            }
            assert forall|i: int, j: int| 0 <= i < j < f.open.len() implies (#[trigger] f.open[i]).state
                != (#[trigger] f.open[j]).state by {
                if j < g.open.len() {
                    assert(g.open[i].state != g.open[j].state);
                } else {
                    assert(g.seen.contains(g.open[i].state));
                }
            }
        }
    }
}

/// Taking an entry away leaves the frame orderly.
pub proof fn lemma_take<S: State, P>(frame: Frame<S, P>, i: int)
    requires
        orderly(frame),
        0 <= i < frame.open.len(),
    ensures
        orderly(Frame { seen: frame.seen, open: frame.open.remove(i) }),
        !waiting(Frame { seen: frame.seen, open: frame.open.remove(i) }, frame.open[i].state),
        forall|s: S|
            s != frame.open[i].state && waiting(frame, s) ==> #[trigger] waiting(
                Frame { seen: frame.seen, open: frame.open.remove(i) },
                s,
            ),
{
    let rest = Frame { seen: frame.seen, open: frame.open.remove(i) };
    assert forall|a: int| 0 <= a < rest.open.len() implies #[trigger] rest.open[a] == frame.open[if a
        < i {
        a
    } else {
        a + 1
    }] by {}
    assert forall|a: int, b: int| 0 <= a < b < rest.open.len() implies (#[trigger] rest.open[a]).state
        != (#[trigger] rest.open[b]).state by {
        let a0 = if a < i { a } else { a + 1 };
        let b0 = if b < i { b } else { b + 1 };
        assert(frame.open[a0].state != frame.open[b0].state);
    }
    assert forall|a: int| 0 <= a < rest.open.len() implies frame.open[i].state != (
    #[trigger] rest.open[a]).state by {
        let a0 = if a < i { a } else { a + 1 };
        if a0 < i {
            assert(frame.open[a0].state != frame.open[i].state);
        } else {
            assert(frame.open[i].state != frame.open[a0].state);
        }
    }
    assert forall|s: S| s != frame.open[i].state && waiting(frame, s) implies #[trigger] waiting(
        rest,
        s,
    ) by {
        let j = choose|j: int| 0 <= j < frame.open.len() && (#[trigger] frame.open[j]).state == s;
        let a = if j < i { j } else { j - 1 };
        assert(rest.open[a].state == s);
    }
}

/// One round either ends with a reachable valid goal or leaves a coherent
/// frame with less work remaining.
pub proof fn lemma_advance<S: State, P>(
    rule: Rule<S, P>,
    goal: spec_fn(S) -> bool,
    start: S,
    frame: Frame<S, P>,
)
    requires
        reach(start).finite(),
        coherent(goal, start, frame),
        frame.open.len() > 0,
    ensures
        match advance(rule, goal, frame) {
            Step::Found(s) => reach(start).contains(s) && passes(s) && goal(s),
            Step::Exhausted => false,
            Step::Next(next) => coherent(goal, start, next) && remaining(start, next) < remaining(
                start,
                frame,
            ),
        },
{
    lemma_pick_in_range(rule, frame.open);
    let i = pick(rule, frame.open);
    let taken = frame.open[i];
    let rest = Frame { seen: frame.seen, open: frame.open.remove(i) };
    assert(frame.seen.contains(taken.state));
    if !(goal(taken.state) && passes(taken.state)) {
        lemma_take(frame, i);
        if passes(taken.state) {
            let n = taken.state.actions().len();
            let next = expand(rule, rest, taken, taken.state.actions(), n);
            lemma_expand(rule, start, rest, taken, n);
            assert forall|s: S| #[trigger] next.seen.contains(s) && !waiting(next, s) implies settled(
                goal,
                next,
                s,
            ) by {
                assert(rest.seen.contains(s));
                if s != taken.state {
                    if waiting(frame, s) {
                        assert(waiting(rest, s));
                        let j = choose|j: int|
                            0 <= j < rest.open.len() && (#[trigger] rest.open[j]).state == s;
                        assert(next.open[j].state == s);
                    }
                    assert(settled(goal, frame, s));
                }
            }
        } else {
            assert forall|s: S| #[trigger] rest.seen.contains(s) && !waiting(rest, s) implies settled(
                goal,
                rest,
                s,
            ) by {
                if s != taken.state {
                    assert(settled(goal, frame, s));
                }
            }
        }
    }
}

/// Once nothing waits, every state the traversal could discover has been seen.
proof fn lemma_closed<S: State, P>(
    goal: spec_fn(S) -> bool,
    start: S,
    frame: Frame<S, P>,
    acts: Seq<S::Action>,
)
    requires
        coherent(goal, start, frame),
        frame.open.len() == 0,
        viable(start, acts),
    ensures
        frame.seen.contains(follow(start, acts)),
    decreases acts.len(),
{
    if acts.len() > 0 {
        lemma_closed(goal, start, frame, acts.drop_last());
        let from = follow(start, acts.drop_last());
        assert(!waiting(frame, from));
        assert(settled(goal, frame, from));
        let k = choose|k: int| 0 <= k < from.actions().len() && from.actions()[k] == acts.last();
        assert(frame.seen.contains(from.successor(&from.actions()[k])));
    }
}

/// Once nothing waits, no reachable state is a valid goal.
pub proof fn lemma_exhausted<S: State, P>(goal: spec_fn(S) -> bool, start: S, frame: Frame<S, P>)
    requires
        coherent(goal, start, frame),
        frame.open.len() == 0,
    ensures
        forall|t: S| reach(start).contains(t) && passes(t) ==> !#[trigger] goal(t),
{
    assert forall|t: S| reach(start).contains(t) && passes(t) implies !#[trigger] goal(t) by {
        let acts = choose|acts: Seq<S::Action>| viable(start, acts) && #[trigger] follow(start, acts) == t;
        lemma_closed(goal, start, frame, acts);
        assert(!waiting(frame, t));
        assert(settled(goal, frame, t));
    }
}

/// A traversal that is granted more rounds than work remains ends with a
/// reachable valid goal, or with nothing where there is none.
pub proof fn lemma_run<S: State, P>(
    rule: Rule<S, P>,
    goal: spec_fn(S) -> bool,
    start: S,
    frame: Frame<S, P>,
    rounds: nat,
)
    requires
        reach(start).finite(),
        coherent(goal, start, frame),
        rounds > remaining(start, frame),
    ensures
        match run(rule, goal, frame, rounds) {
            Some(s) => reach(start).contains(s) && passes(s) && goal(s),
            None => forall|t: S| reach(start).contains(t) && passes(t) ==> !#[trigger] goal(t),
        },
    decreases rounds,
{
    if frame.open.len() == 0 {
        lemma_exhausted(goal, start, frame);
    } else {
        lemma_advance(rule, goal, start, frame);
        match advance(rule, goal, frame) {
            Step::Next(next) => {
                lemma_run(rule, goal, start, next, (rounds - 1) as nat);
            },
            _ => {},
        }
    }
}

/// The opening frame is coherent and leaves as much work as there are reachable states.
pub proof fn lemma_opening<S: State, P>(rule: Rule<S, P>, goal: spec_fn(S) -> bool, start: S)
    requires
        reach(start).finite(),
    ensures
        coherent(goal, start, opening(rule, start)),
        remaining(start, opening(rule, start)) < rounds_needed(start),
{
    let frame = opening(rule, start);
    lemma_start_reachable(start);
    assert(waiting(frame, start)) by {
        assert(frame.open[0].state == start);
    }
    assert(frame.seen.len() == 1);
    assert(reach(start).difference(frame.seen) =~= reach(start).remove(start));
}

} // verus!
