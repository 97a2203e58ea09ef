//! A* search returns a goal that no walk reaches cheaper, as far as the rank
//! at which states were first discovered does not stand in the way.
use crate::cheapest::{adding_grows, cheap, toll};
use crate::coherence::{
    coherent, lemma_advance, lemma_exhausted, lemma_opening, lemma_pick_in_range, lemma_take,
    remaining,
};
use crate::least_first::{
    at_most, booked, keyed, lemma_at_most_itself, lemma_note, lemma_taken_within, ordered, unhindered,
};
use crate::model::{
    child, discovery, expand, note, noted_in, opening, outcome, pick, precedes, rounds_needed, run,
    Entry, Frame,
};
use crate::scoring::{by_sum, guess, zero};
use crate::state::{follow, lemma_step, passes, reach, simple, trail, viable, State};
use std::ops::Add;
use vstd::prelude::*;
use vstd::std_specs::ops::AddSpec;

verus! {

/// No reachable valid state is estimated at less than nothing.
pub open spec fn never_below_zero<S: State, C: Ord + Default, H: Fn(&S) -> C>(h: H, start: S) -> bool {
    forall|s: S| reach(start).contains(s) && passes(s) ==> at_most(zero::<C>(), #[trigger] guess(h, s))
}

/// Along every viable walk that repeats no state, the estimate of the state
/// the last step leaves from can be added to the accumulated cost.
pub open spec fn ranks_in_range<
    S: State,
    C: Default + Add<Output = C>,
    G: Fn(&S, &S::Action) -> C,
    H: Fn(&S) -> C,
>(g: G, h: H, start: S) -> bool {
    forall|acts: Seq<S::Action>| #[trigger]
        viable(start, acts) && simple(start, acts) && acts.len() > 0 ==> toll(g, start, acts).add_req(
            guess(h, follow(start, acts.drop_last())),
        )
}

/// The rank a state gets when the walk `via` discovers it: the accumulated
/// cost of the walk plus the estimate of the state its last step leaves from.
pub open spec fn rank<S: State, C: Default + Add<Output = C>, G: Fn(&S, &S::Action) -> C, H: Fn(&S) -> C>(
    g: G,
    h: H,
    start: S,
    via: Seq<S::Action>,
) -> C {
    if via.len() == 0 {
        zero::<C>()
    } else {
        toll(g, start, via).add_spec(guess(h, follow(start, via.drop_last())))
    }
}

/// The key of a score made of a cost and a rank is the rank.
pub open spec fn rank_of<C>() -> spec_fn((C, C)) -> C {
    |score: (C, C)| score.1
}

/// Some trail through `seen` discovers `e`'s state at `e`'s accumulated cost and rank.
pub open spec fn sourced<S: State, C: Default + Add<Output = C>, G: Fn(&S, &S::Action) -> C, H: Fn(&S) -> C>(
    g: G,
    h: H,
    start: S,
    seen: Set<S>,
    e: Entry<S, (C, C)>,
) -> bool {
    exists|via: Seq<S::Action>| #[trigger]
        trail(start, seen, via, e.state) && toll(g, start, via) == e.score.0 && rank(g, h, start, via)
            == e.score.1
}

/// Every waiting entry is sourced.
pub open spec fn ranked<S: State, C: Default + Add<Output = C>, G: Fn(&S, &S::Action) -> C, H: Fn(&S) -> C>(
    g: G,
    h: H,
    start: S,
    frame: Frame<S, (C, C)>,
) -> bool {
    forall|i: int| 0 <= i < frame.open.len() ==> sourced(g, h, start, frame.seen, #[trigger] frame.open[i])
}

/// Whatever viable walk ends in a valid goal: unless a state on it was first
/// discovered at a rank above the cost that the walk has in all, `found` holds
/// a state that is reached at no higher cost than the walk has.
///
/// The rank of a state is its accumulated cost plus the estimate of the state
/// it was discovered from.  An estimate that never lifts the rank of a state
/// on a cheapest walk to a goal above the cost of that walk leaves nothing in
/// the way, and `found` is a cheapest goal.
pub open spec fn cheapest_ranked<
    S: State,
    C: Ord + Default + Add<Output = C>,
    G: Fn(&S, &S::Action) -> C,
    H: Fn(&S) -> C,
>(g: G, h: H, goal: spec_fn(S) -> bool, start: S, found: Option<S>) -> bool {
    forall|walk: Seq<S::Action>| #[trigger]
        viable(start, walk) && passes(follow(start, walk)) && goal(follow(start, walk)) && unhindered(
            discovery(by_sum(g, h), goal, start),
            rank_of::<C>(),
            start,
            walk,
            toll(g, start, walk),
        ) ==> cheap(g, start, found, toll(g, start, walk))
}

/// A* search takes entries in the order of their ranks.
proof fn lemma_by_sum_keyed<
    S: State,
    C: Ord + Default + Add<Output = C>,
    G: Fn(&S, &S::Action) -> C,
    H: Fn(&S) -> C,
>(g: G, h: H)
    requires
        ordered::<C>(),
    ensures
        keyed(by_sum::<S, C, G, H>(g, h), rank_of::<C>()),
{
    let rule = by_sum::<S, C, G, H>(g, h);
    assert forall|x: Entry<S, (C, C)>, y: Entry<S, (C, C)>|
        (#[trigger] precedes(rule, x, y) ==> at_most(x.score.1, y.score.1)) && (
        !precedes(rule, x, y) ==> at_most(y.score.1, x.score.1)) by {
        assert(at_most(x.score.1, y.score.1) || at_most(y.score.1, x.score.1));
    }
}

/// Expanding a sourced entry queues sourced entries only.
proof fn lemma_expand_ranked<
    S: State,
    C: Ord + Default + Add<Output = C>,
    G: Fn(&S, &S::Action) -> C,
    H: Fn(&S) -> C,
>(g: G, h: H, start: S, rest: Frame<S, (C, C)>, parent: Entry<S, (C, C)>, k: nat)
    requires
        ranked(g, h, start, rest),
        sourced(g, h, start, rest.seen, parent),
        passes(parent.state),
        k <= parent.state.actions().len(),
    ensures
        ranked(g, h, start, expand(by_sum(g, h), rest, parent, parent.state.actions(), k)),
        sourced(g, h, start, expand(by_sum(g, h), rest, parent, parent.state.actions(), k).seen, parent),
    decreases k,
{
    if k > 0 {
        let rule = by_sum::<S, C, G, H>(g, h);
        let acts = parent.state.actions();
        lemma_expand_ranked(g, h, start, rest, parent, (k - 1) as nat);
        let sofar = expand(rule, rest, parent, acts, (k - 1) as nat);
        let f = expand(rule, rest, parent, acts, k);
        let c = child(rule, parent, acts[k - 1]);
        if !sofar.seen.contains(c.state) {
            assert(f.open == sofar.open.push(c));
            let to = choose|to: Seq<S::Action>| #[trigger]
                trail(start, sofar.seen, to, parent.state) && toll(g, start, to) == parent.score.0 && rank(
                    g,
                    h,
                    start,
                    to,
                ) == parent.score.1;
            assert(acts.contains(acts[k - 1]));
            lemma_step(start, sofar.seen, to, acts[k - 1]);
            let via = to.push(acts[k - 1]);
            assert(trail(start, f.seen, via, c.state) && toll(g, start, via) == c.score.0 && rank(
                g,
                h,
                start,
                via,
            ) == c.score.1);
            assert(sourced(g, h, start, f.seen, c));
            assert(trail(start, f.seen, to, parent.state));
            assert forall|i: int| 0 <= i < f.open.len() implies sourced(
                g,
                h,
                start,
                f.seen,
                #[trigger] f.open[i],
            ) by {
                if i < sofar.open.len() {
                    assert(f.open[i] == sofar.open[i]);
                    let old = choose|old: Seq<S::Action>| #[trigger]
                        trail(start, sofar.seen, old, sofar.open[i].state) && toll(g, start, old)
                            == sofar.open[i].score.0 && rank(g, h, start, old) == sofar.open[i].score.1;
                    assert(trail(start, f.seen, old, f.open[i].state));
                }
            }
        }
    }
}

/// The accumulated cost of a discovering walk does not exceed the rank it gives.
proof fn lemma_cost_below_rank<
    S: State,
    C: Ord + Default + Add<Output = C>,
    G: Fn(&S, &S::Action) -> C,
    H: Fn(&S) -> C,
>(g: G, h: H, start: S, via: Seq<S::Action>)
    requires
        ordered::<C>(),
        adding_grows::<C>(),
        never_below_zero(h, start),
        ranks_in_range(g, h, start),
        viable(start, via),
        simple(start, via),
    ensures
        at_most(toll(g, start, via), rank(g, h, start, via)),
{
    lemma_at_most_itself(zero::<C>());
    if via.len() > 0 {
        let from = follow(start, via.drop_last());
        assert(reach(start).contains(from));
        assert(at_most(zero::<C>(), guess(h, from)));
    }
}

proof fn lemma_a_star_run<
    S: State,
    C: Ord + Default + Add<Output = C>,
    G: Fn(&S, &S::Action) -> C,
    H: Fn(&S) -> C,
>(
    g: G,
    h: H,
    goal: spec_fn(S) -> bool,
    start: S,
    frame: Frame<S, (C, C)>,
    book: Map<S, (C, C)>,
    rounds: nat,
    walk: Seq<S::Action>,
)
    requires
        reach(start).finite(),
        ordered::<C>(),
        adding_grows::<C>(),
        never_below_zero(h, start),
        ranks_in_range(g, h, start),
        coherent(goal, start, frame),
        ranked(g, h, start, frame),
        booked(frame, book),
        rounds > remaining(start, frame),
        viable(start, walk),
        passes(follow(start, walk)),
        goal(follow(start, walk)),
        unhindered(
            noted_in(by_sum(g, h), goal, frame, book, rounds),
            rank_of::<C>(),
            start,
            walk,
            toll(g, start, walk),
        ),
    ensures
        cheap(g, start, run(by_sum(g, h), goal, frame, rounds), toll(g, start, walk)),
    decreases rounds,
{
    let rule = by_sum::<S, C, G, H>(g, h);
    let target = follow(start, walk);
    let bound = toll(g, start, walk);
    assert(reach(start).contains(target));
    if frame.open.len() == 0 {
        lemma_exhausted(goal, start, frame);
        assert(!goal(target));
    } else {
        lemma_advance(rule, goal, start, frame);
        lemma_by_sum_keyed::<S, C, G, H>(g, h);
        lemma_pick_in_range(rule, frame.open);
        let at = pick(rule, frame.open);
        let taken = frame.open[at];
        let rest = Frame { seen: frame.seen, open: frame.open.remove(at) };
        if goal(taken.state) && passes(taken.state) {
            assert(noted_in(rule, goal, frame, book, rounds) == book);
            lemma_taken_within(rule, rank_of::<C>(), goal, start, frame, book, walk, bound);
            let via = choose|via: Seq<S::Action>| #[trigger]
                trail(start, frame.seen, via, taken.state) && toll(g, start, via) == taken.score.0 && rank(
                    g,
                    h,
                    start,
                    via,
                ) == taken.score.1;
            lemma_cost_below_rank(g, h, start, via);
            assert(at_most(taken.score.0, taken.score.1));
            assert(at_most(taken.score.1, bound));
            assert(viable(start, via) && simple(start, via) && follow(start, via) == taken.state
                && at_most(toll(g, start, via), bound));
            assert(run(rule, goal, frame, rounds) == Some(taken.state));
        } else {
            lemma_take(frame, at);
            assert forall|i: int| 0 <= i < rest.open.len() implies #[trigger] rest.open[i] == frame.open[if i
                < at {
                i
            } else {
                i + 1
            }] by {}
            assert(ranked(g, h, start, rest));
            assert(booked(rest, book));
            if passes(taken.state) {
                let n = taken.state.actions().len();
                let next = expand(rule, rest, taken, taken.state.actions(), n);
                let more = note(rule, rest, book, taken, taken.state.actions(), n);
                lemma_expand_ranked(g, h, start, rest, taken, n);
                lemma_note(rule, rest, book, taken, taken.state.actions(), n);
                assert(run(rule, goal, frame, rounds) == run(rule, goal, next, (rounds - 1) as nat));
                assert(noted_in(rule, goal, frame, book, rounds) == noted_in(
                    rule,
                    goal,
                    next,
                    more,
                    (rounds - 1) as nat,
                ));
                lemma_a_star_run(g, h, goal, start, next, more, (rounds - 1) as nat, walk);
            } else {
                assert(run(rule, goal, frame, rounds) == run(rule, goal, rest, (rounds - 1) as nat));
                assert(noted_in(rule, goal, frame, book, rounds) == noted_in(
                    rule,
                    goal,
                    rest,
                    book,
                    (rounds - 1) as nat,
                ));
                lemma_a_star_run(g, h, goal, start, rest, book, (rounds - 1) as nat, walk);
            }
        }
    }
}

/// Where no estimate is negative and ranks stay in the range of the cost
/// type, A* search returns a goal that no walk reaches cheaper, unless a state
/// on that walk was first discovered at a rank above the cost that the walk
/// has in all; see [`cheapest_ranked`].
pub proof fn law_a_star_is_cheapest<
    S: State,
    C: Ord + Default + Add<Output = C>,
    G: Fn(&S, &S::Action) -> C,
    H: Fn(&S) -> C,
>(g: G, h: H, goal: spec_fn(S) -> bool, start: S)
    requires
        reach(start).finite(),
        ordered::<C>(),
        adding_grows::<C>(),
        never_below_zero(h, start),
        ranks_in_range(g, h, start),
    ensures
        cheapest_ranked(g, h, goal, start, outcome(by_sum(g, h), goal, start)),
{
    let rule = by_sum::<S, C, G, H>(g, h);
    let frame = opening(rule, start);
    let book = Map::<S, (C, C)>::empty().insert(start, rule.first);
    lemma_opening(rule, goal, start);
    assert(sourced(g, h, start, frame.seen, frame.open[0])) by {
        let none = Seq::<S::Action>::empty();
        assert(trail(start, frame.seen, none, start) && toll(g, start, none) == zero::<C>() && rank(
            g,
            h,
            start,
            none,
        ) == zero::<C>());
    }
    assert forall|walk: Seq<S::Action>| #[trigger]
        viable(start, walk) && passes(follow(start, walk)) && goal(follow(start, walk)) && unhindered(
            discovery(rule, goal, start),
            rank_of::<C>(),
            start,
            walk,
            toll(g, start, walk),
        ) implies cheap(g, start, outcome(rule, goal, start), toll(g, start, walk)) by {
        lemma_a_star_run(g, h, goal, start, frame, book, rounds_needed(start), walk);
    }
}

} // verus!
