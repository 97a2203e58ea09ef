//! Breadth-first search returns a goal that no other goal is nearer than.
use crate::coherence::{
    coherent, lemma_advance, lemma_exhausted, lemma_expand, lemma_opening, remaining, settled,
    waiting,
};
use crate::model::{child, expand, opening, outcome, rounds_needed, run, Entry, Frame, Order, Rule};
use crate::state::{follow, passes, reach, viable, State};
use crate::strategy::blind;
use vstd::prelude::*;

verus! {

/// A viable walk of `n` actions leads from `start` to `s`.
pub open spec fn within<S: State>(start: S, s: S, n: nat) -> bool {
    exists|acts: Seq<S::Action>| #[trigger]
        viable(start, acts) && follow(start, acts) == s && acts.len() == n
}

/// The frame of a breadth-first traversal, with the depth `levels` records for
/// each seen state: the queue is sorted by depth, spans at most two depths,
/// and a state is recorded at most one deeper than the state that led to it.
pub open spec fn layered<S: State, P>(start: S, frame: Frame<S, P>, levels: Map<S, nat>) -> bool {
    &&& levels.dom() == frame.seen
    &&& levels[start] == 0
    &&& forall|i: int|
        0 <= i < frame.open.len() ==> levels[(#[trigger] frame.open[i]).state] == frame.open[i].depth
    &&& forall|s: S| #[trigger] frame.seen.contains(s) ==> within(start, s, levels[s])
    &&& forall|i: int, j: int|
        0 <= i <= j < frame.open.len() ==> (#[trigger] frame.open[i]).depth <= (
        #[trigger] frame.open[j]).depth
    &&& forall|s: S, i: int| #[trigger]
        frame.seen.contains(s) && 0 <= i < frame.open.len() ==> levels[s] <= (
        #[trigger] frame.open[i]).depth + 1
    &&& forall|s: S, k: int|
        #![trigger frame.seen.contains(s), s.actions()[k]]
        frame.seen.contains(s) && !waiting(frame, s) && passes(s) && 0 <= k < s.actions().len()
            ==> levels[s.successor(&s.actions()[k])] <= levels[s] + 1
}

/// The depths recorded after the first `k` of `acts` have been applied to `parent`.
pub open spec fn relabel<S: State, P>(
    rule: Rule<S, P>,
    rest: Frame<S, P>,
    levels: Map<S, nat>,
    parent: Entry<S, P>,
    acts: Seq<S::Action>,
    k: nat,
) -> Map<S, nat>
    decreases k,
{
    if k == 0 {
        levels
    } else {
        let sofar = expand(rule, rest, parent, acts, (k - 1) as nat);
        let labels = relabel(rule, rest, levels, parent, acts, (k - 1) as nat);
        let c = child(rule, parent, acts[k - 1]);
        if sofar.seen.contains(c.state) {
            labels
        } else {
            labels.insert(c.state, c.depth)
        }
    }
}

/// Expanding the front of the queue keeps the bookkeeping of depths in order.
proof fn lemma_expand_layered<S: State, P>(
    rule: Rule<S, P>,
    start: S,
    rest: Frame<S, P>,
    levels: Map<S, nat>,
    parent: Entry<S, P>,
    k: nat,
)
    requires
        k <= parent.state.actions().len(),
        passes(parent.state),
        levels.dom() == rest.seen,
        rest.seen.contains(parent.state),
        levels[parent.state] == parent.depth,
        within(start, parent.state, parent.depth),
        forall|i: int| 0 <= i < rest.open.len() ==> rest.seen.contains((#[trigger] rest.open[i]).state),
        forall|i: int|
            0 <= i < rest.open.len() ==> levels[(#[trigger] rest.open[i]).state] == rest.open[i].depth,
        forall|s: S| #[trigger] rest.seen.contains(s) ==> within(start, s, levels[s]),
        forall|i: int, j: int|
            0 <= i <= j < rest.open.len() ==> (#[trigger] rest.open[i]).depth <= (
            #[trigger] rest.open[j]).depth,
        forall|i: int|
            0 <= i < rest.open.len() ==> parent.depth <= (#[trigger] rest.open[i]).depth <= parent.depth
                + 1,
        forall|s: S| #[trigger] rest.seen.contains(s) ==> levels[s] <= parent.depth + 1,
    ensures
        ({
            let f = expand(rule, rest, parent, parent.state.actions(), k);
            let labels = relabel(rule, rest, levels, parent, parent.state.actions(), k);
            &&& labels.dom() == f.seen
            &&& rest.seen.subset_of(f.seen)
            &&& forall|s: S| #[trigger] rest.seen.contains(s) ==> labels[s] == levels[s]
            &&& forall|i: int| 0 <= i < f.open.len() ==> f.seen.contains((#[trigger] f.open[i]).state)
            &&& forall|i: int|
                0 <= i < f.open.len() ==> labels[(#[trigger] f.open[i]).state] == f.open[i].depth
            &&& forall|s: S| #[trigger] f.seen.contains(s) ==> within(start, s, labels[s])
            &&& forall|i: int, j: int|
                0 <= i <= j < f.open.len() ==> (#[trigger] f.open[i]).depth <= (
                #[trigger] f.open[j]).depth
            &&& forall|i: int|
                0 <= i < f.open.len() ==> parent.depth <= (#[trigger] f.open[i]).depth <= parent.depth
                    + 1
            &&& forall|s: S| #[trigger] f.seen.contains(s) ==> labels[s] <= parent.depth + 1
            &&& forall|j: int|
                0 <= j < k ==> f.seen.contains(
                    parent.state.successor(&(#[trigger] parent.state.actions()[j])),
                )
        }),
    decreases k,
{
    if k > 0 {
        let acts = parent.state.actions();
        lemma_expand_layered(rule, start, rest, levels, parent, (k - 1) as nat);
        let g = expand(rule, rest, parent, acts, (k - 1) as nat);
        let before = relabel(rule, rest, levels, parent, acts, (k - 1) as nat);
        let f = expand(rule, rest, parent, acts, k);
        let labels = relabel(rule, rest, levels, parent, acts, k);
        let c = child(rule, parent, acts[k - 1]);
        if !g.seen.contains(c.state) {
            assert(f.seen == g.seen.insert(c.state));
            assert(f.open == g.open.push(c));
            assert(labels == before.insert(c.state, c.depth));
            assert(labels.dom() =~= f.seen);
            assert(within(start, c.state, c.depth)) by {
                let to = choose|to: Seq<S::Action>| #[trigger]
                    viable(start, to) && follow(start, to) == parent.state && to.len() == parent.depth;
                let longer = to.push(acts[k - 1]);
                assert(longer.drop_last() =~= to);
                assert(acts.contains(acts[k - 1]));
                assert(viable(start, longer) && follow(start, longer) == c.state && longer.len()
                    == c.depth);
            }
            assert forall|i: int| 0 <= i < f.open.len() implies labels[(#[trigger] f.open[i]).state]
                == f.open[i].depth by {
                if i < g.open.len() {
                    assert(f.open[i] == g.open[i]);
                    assert(g.seen.contains(g.open[i].state));
                }
            }
            assert forall|i: int| 0 <= i < f.open.len() implies f.seen.contains(
                (#[trigger] f.open[i]).state,
            ) by {
                if i < g.open.len() {
                    assert(f.open[i] == g.open[i]);
                    assert(g.seen.contains(g.open[i].state));
                }
            }
            assert forall|s: S| #[trigger] f.seen.contains(s) implies within(start, s, labels[s]) by {
                if s != c.state {
                    assert(g.seen.contains(s));
                }
            }
            assert forall|s: S| #[trigger] f.seen.contains(s) implies labels[s] <= parent.depth + 1 by {
                if s != c.state {
                    assert(g.seen.contains(s));
                }
            }
            assert forall|i: int, j: int| 0 <= i <= j < f.open.len() implies (#[trigger] f.open[i]).depth
                <= (#[trigger] f.open[j]).depth by {
                if j < g.open.len() {
                    assert(g.open[i].depth <= g.open[j].depth);
                } else if i < g.open.len() {
                    assert(g.open[i].depth <= parent.depth + 1);
                }
            }
            assert forall|i: int| 0 <= i < f.open.len() implies parent.depth <= (#[trigger] f.open[i]).depth
                <= parent.depth + 1 by {
                if i < g.open.len() {
                    assert(f.open[i] == g.open[i]);
                }
            }
            assert forall|s: S| #[trigger] rest.seen.contains(s) implies labels[s] == levels[s] by {
                assert(g.seen.contains(s));
            }
        }
    }
}

/// The end of a viable walk has been seen no deeper than the walk is long,
/// unless an entry at most that deep still waits.
proof fn lemma_cover<S: State, P>(
    goal: spec_fn(S) -> bool,
    start: S,
    frame: Frame<S, P>,
    levels: Map<S, nat>,
    acts: Seq<S::Action>,
)
    requires
        coherent(goal, start, frame),
        layered(start, frame, levels),
        viable(start, acts),
    ensures
        (frame.seen.contains(follow(start, acts)) && levels[follow(start, acts)] <= acts.len()) || (
        exists|i: int| 0 <= i < frame.open.len() && (#[trigger] frame.open[i]).depth <= acts.len()),
    decreases acts.len(),
{
    if acts.len() > 0 {
        let shorter = acts.drop_last();
        let from = follow(start, shorter);
        lemma_cover(goal, start, frame, levels, shorter);
        if frame.seen.contains(from) && levels[from] <= shorter.len() {
            if waiting(frame, from) {
                let i = choose|i: int| 0 <= i < frame.open.len() && (#[trigger] frame.open[i]).state == from;
                assert(frame.open[i].depth <= acts.len());
            } else {
                assert(settled(goal, frame, from));
                let k = choose|k: int| 0 <= k < from.actions().len() && from.actions()[k] == acts.last();
                assert(frame.seen.contains(from.successor(&from.actions()[k])));
                assert(levels[from.successor(&from.actions()[k])] <= levels[from] + 1);
            }
        } else {
            let i = choose|i: int| 0 <= i < frame.open.len() && (#[trigger] frame.open[i]).depth <= shorter.len();
            assert(frame.open[i].depth <= acts.len());
        }
    }
}

/// `found` holds a state that a viable walk of at most `bound` actions reaches.
pub open spec fn near<S: State>(start: S, found: Option<S>, bound: nat) -> bool {
    found matches Some(s) && exists|best: Seq<S::Action>| #[trigger]
        viable(start, best) && follow(start, best) == s && best.len() <= bound
}

/// Whatever viable walk ends in a valid goal, `found` holds a state that a
/// viable walk reaches in no more actions.
pub open spec fn shallowest<S: State>(goal: spec_fn(S) -> bool, start: S, found: Option<S>) -> bool {
    forall|acts: Seq<S::Action>| #[trigger]
        viable(start, acts) && passes(follow(start, acts)) && goal(follow(start, acts)) ==> near(
            start,
            found,
            acts.len(),
        )
}

proof fn lemma_breadth_first_run<S: State>(
    goal: spec_fn(S) -> bool,
    start: S,
    frame: Frame<S, ()>,
    levels: Map<S, nat>,
    rounds: nat,
    acts: Seq<S::Action>,
)
    requires
        reach(start).finite(),
        coherent(goal, start, frame),
        layered(start, frame, levels),
        rounds > remaining(start, frame),
        viable(start, acts),
        passes(follow(start, acts)),
        goal(follow(start, acts)),
    ensures
        near(start, run(blind::<S>(Order::OldestFirst), goal, frame, rounds), acts.len()),
    decreases rounds,
{
    let rule = blind::<S>(Order::OldestFirst);
    let target = follow(start, acts);
    assert(reach(start).contains(target));
    if frame.open.len() == 0 {
        lemma_exhausted(goal, start, frame);
        assert(!goal(target));
    } else {
        lemma_advance(rule, goal, start, frame);
        let taken = frame.open[0];
        let rest = Frame { seen: frame.seen, open: frame.open.remove(0) };
        assert(frame.seen.contains(taken.state));
        if goal(taken.state) && passes(taken.state) {
            lemma_cover(goal, start, frame, levels, acts);
            if frame.seen.contains(target) && levels[target] <= acts.len() {
                if waiting(frame, target) {
                    let i = choose|i: int| 0 <= i < frame.open.len() && (#[trigger] frame.open[i]).state == target;
                    assert(taken.depth <= frame.open[i].depth);
                } else {
                    assert(settled(goal, frame, target));
                }
            } else {
                let i = choose|i: int| 0 <= i < frame.open.len() && (#[trigger] frame.open[i]).depth <= acts.len();
                assert(taken.depth <= frame.open[i].depth);
            }
            assert(within(start, taken.state, taken.depth));
            assert(taken.depth <= acts.len());
            assert(run(rule, goal, frame, rounds) == Some(taken.state));
            let to = choose|to: Seq<S::Action>| #[trigger]
                viable(start, to) && follow(start, to) == taken.state && to.len() == taken.depth;
            assert(viable(start, to) && follow(start, to) == taken.state && to.len() <= acts.len());
            assert(near(start, Some(taken.state), acts.len()));
        } else {
            assert forall|i: int| 0 <= i < rest.open.len() implies #[trigger] rest.open[i] == frame.open[i + 1] by {}
            assert forall|s: S| waiting(rest, s) implies waiting(frame, s) by {
                let i = choose|i: int| 0 <= i < rest.open.len() && (#[trigger] rest.open[i]).state == s;
                assert(frame.open[i + 1].state == s);
            }
            assert forall|s: S| s != taken.state && waiting(frame, s) implies waiting(rest, s) by {
                let i = choose|i: int| 0 <= i < frame.open.len() && (#[trigger] frame.open[i]).state == s;
                assert(rest.open[i - 1].state == s);
            }
            if passes(taken.state) {
                let n = taken.state.actions().len();
                let next = expand(rule, rest, taken, taken.state.actions(), n);
                let labels = relabel(rule, rest, levels, taken, taken.state.actions(), n);
                assert forall|i: int| 0 <= i < rest.open.len() implies taken.depth <= (
                #[trigger] rest.open[i]).depth <= taken.depth + 1 by {
                    assert(frame.open[0].depth <= frame.open[i + 1].depth);
                    assert(frame.seen.contains(frame.open[i + 1].state));
                }
                assert forall|s: S| #[trigger] rest.seen.contains(s) implies levels[s] <= taken.depth + 1 by {
                    assert(levels[s] <= frame.open[0].depth + 1);
                }
                assert forall|i: int, j: int| 0 <= i <= j < rest.open.len() implies (
                #[trigger] rest.open[i]).depth <= (#[trigger] rest.open[j]).depth by {
                    assert(frame.open[i + 1].depth <= frame.open[j + 1].depth);
                }
                lemma_expand_layered(rule, start, rest, levels, taken, n);
                crate::coherence::lemma_take(frame, 0);
                lemma_expand(rule, start, rest, taken, n);
                assert forall|s: S, i: int| #[trigger]
                    next.seen.contains(s) && 0 <= i < next.open.len() implies labels[s] <= (
                #[trigger] next.open[i]).depth + 1 by {}
                assert forall|s: S, k: int|
                    #![trigger next.seen.contains(s), s.actions()[k]]
                    next.seen.contains(s) && !waiting(next, s) && passes(s) && 0 <= k < s.actions().len()
                implies labels[s.successor(&s.actions()[k])] <= labels[s] + 1 by {
                    let t = s.successor(&s.actions()[k]);
                    assert(rest.seen.contains(s));
                    if s == taken.state {
                        assert(next.seen.contains(t));
                    } else {
                        if waiting(frame, s) {
                            assert(waiting(rest, s));
                            let j = choose|j: int| 0 <= j < rest.open.len() && (#[trigger] rest.open[j]).state == s;
                            assert(next.open[j].state == s);
                        }
                        assert(settled(goal, frame, s));
                        assert(frame.seen.contains(t));
                        assert(levels[t] <= levels[s] + 1);
                    }
                }
                assert(layered(start, next, labels));
                assert(run(rule, goal, frame, rounds) == run(rule, goal, next, (rounds - 1) as nat));
                lemma_breadth_first_run(goal, start, next, labels, (rounds - 1) as nat, acts);
                assert(near(start, run(rule, goal, frame, rounds), acts.len()));
            } else {
                assert forall|s: S, k: int|
                    #![trigger rest.seen.contains(s), s.actions()[k]]
                    rest.seen.contains(s) && !waiting(rest, s) && passes(s) && 0 <= k < s.actions().len()
                implies levels[s.successor(&s.actions()[k])] <= levels[s] + 1 by {
                    if s != taken.state {
                        assert(!waiting(frame, s));
                    }
                }
                assert(layered(start, rest, levels));
                assert(run(rule, goal, frame, rounds) == run(rule, goal, rest, (rounds - 1) as nat));
                lemma_breadth_first_run(goal, start, rest, levels, (rounds - 1) as nat, acts);
                assert(near(start, run(rule, goal, frame, rounds), acts.len()));
            }
        }
    }
}

/// Breadth-first search returns a goal that is nearest to the start: whatever
/// viable walk ends in a valid goal, the state returned is a valid goal that a
/// viable walk reaches in no more actions.
pub proof fn law_breadth_first_is_shallowest<S: State>(goal: spec_fn(S) -> bool, start: S)
    requires
        reach(start).finite(),
    ensures
        shallowest(goal, start, outcome(blind::<S>(Order::OldestFirst), goal, start)),
{
    assert forall|acts: Seq<S::Action>| #[trigger]
        viable(start, acts) && passes(follow(start, acts)) && goal(follow(start, acts)) implies near(
        start,
        outcome(blind::<S>(Order::OldestFirst), goal, start),
        acts.len(),
    ) by {
        lemma_nearest(goal, start, acts);
    }
}

proof fn lemma_nearest<S: State>(goal: spec_fn(S) -> bool, start: S, acts: Seq<S::Action>)
    requires
        reach(start).finite(),
        viable(start, acts),
        passes(follow(start, acts)),
        goal(follow(start, acts)),
    ensures
        near(start, outcome(blind::<S>(Order::OldestFirst), goal, start), acts.len()),
{
    let rule = blind::<S>(Order::OldestFirst);
    let frame = opening(rule, start);
    let levels = Map::<S, nat>::empty().insert(start, 0);
    lemma_opening(rule, goal, start);
    assert(levels.dom() =~= frame.seen);
    assert(within(start, start, 0)) by {
        let none = Seq::<S::Action>::empty();
        assert(viable(start, none) && follow(start, none) == start && none.len() == 0);
    }
    assert(waiting(frame, start)) by {
        assert(frame.open[0].state == start);
    }
    assert(layered(start, frame, levels));
    lemma_breadth_first_run(goal, start, frame, levels, rounds_needed(start), acts);
    assert(near(start, outcome(rule, goal, start), acts.len()));
}

} // verus!
