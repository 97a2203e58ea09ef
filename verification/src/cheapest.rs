//! Uniform-cost search returns a goal that no walk reaches cheaper, as far as
//! the cost at which states were first discovered does not stand in the way.
use crate::coherence::{
    coherent, lemma_advance, lemma_exhausted, lemma_opening, lemma_pick_in_range, lemma_take,
    remaining,
};
use crate::least_first::{
    at_most, booked, keyed, lemma_at_most_itself, lemma_note, lemma_taken_within, ordered, unhindered,
};
use crate::model::{
    child, discovery, expand, note, noted_in, opening, outcome, pick, precedes, rounds_needed, run,
    Entry, Frame,
};
use crate::scoring::{by_cost, price, zero};
use crate::state::{follow, lemma_step, passes, reach, simple, trail, viable, visits, State};
use std::ops::Add;
use vstd::prelude::*;
use vstd::std_specs::ops::AddSpec;

verus! {

/// The accumulated cost of the walk `acts` from `start`.
pub open spec fn toll<S: State, C: Default + Add<Output = C>, G: Fn(&S, &S::Action) -> C>(
    g: G,
    start: S,
    acts: Seq<S::Action>,
) -> C
    decreases acts.len(),
{
    if acts.len() == 0 {
        zero::<C>()
    } else {
        toll(g, start, acts.drop_last()).add_spec(
            price(g, follow(start, acts.drop_last()), acts.last()),
        )
    }
}

/// A score that is a cost is its own key.
pub open spec fn whole<C>() -> spec_fn(C) -> C {
    |cost: C| cost
}

/// Some trail from `start` through `seen` ends in `s` at the accumulated cost `cost`.
pub open spec fn costs<S: State, C: Default + Add<Output = C>, G: Fn(&S, &S::Action) -> C>(
    g: G,
    start: S,
    seen: Set<S>,
    s: S,
    cost: C,
) -> bool {
    exists|via: Seq<S::Action>| #[trigger] trail(start, seen, via, s) && toll(g, start, via) == cost
}

/// Every waiting entry is scored with the cost that a trail to its state accumulates.
pub open spec fn tallied<S: State, C: Default + Add<Output = C>, G: Fn(&S, &S::Action) -> C>(
    g: G,
    start: S,
    frame: Frame<S, C>,
) -> bool {
    forall|i: int|
        0 <= i < frame.open.len() ==> costs(
            g,
            start,
            frame.seen,
            (#[trigger] frame.open[i]).state,
            frame.open[i].score,
        )
}

/// `found` holds a state that a viable walk which repeats no state reaches
/// at a cost of at most `bound`.
pub open spec fn cheap<S: State, C: Ord + Default + Add<Output = C>, G: Fn(&S, &S::Action) -> C>(
    g: G,
    start: S,
    found: Option<S>,
    bound: C,
) -> bool {
    found matches Some(s) && exists|best: Seq<S::Action>| #[trigger]
        viable(start, best) && simple(start, best) && follow(start, best) == s && at_most(
            toll(g, start, best),
            bound,
        )
}

/// Whatever viable walk ends in a valid goal: unless a state on it was first
/// discovered at a higher cost than the walk has in all, `found` holds a state
/// that is reached at no higher cost than the walk has.
///
/// A state keeps the cost at which it is first discovered.  Where that cost
/// is the least at which the state can be reached, for the states on a
/// cheapest walk to a goal, nothing stands in the way and `found` is a
/// cheapest goal.
pub open spec fn cheapest<S: State, C: Ord + Default + Add<Output = C>, G: Fn(&S, &S::Action) -> C>(
    g: G,
    goal: spec_fn(S) -> bool,
    start: S,
    found: Option<S>,
) -> bool {
    forall|walk: Seq<S::Action>| #[trigger]
        viable(start, walk) && passes(follow(start, walk)) && goal(follow(start, walk)) && unhindered(
            discovery(by_cost(g), goal, start),
            whole::<C>(),
            start,
            walk,
            toll(g, start, walk),
        ) ==> cheap(g, start, found, toll(g, start, walk))
}

/// Uniform-cost search takes entries in the order of their costs.
proof fn lemma_by_cost_keyed<S: State, C: Ord + Default + Add<Output = C>, G: Fn(&S, &S::Action) -> C>(g: G)
    requires
        ordered::<C>(),
    ensures
        keyed(by_cost::<S, C, G>(g), whole::<C>()),
{
    let rule = by_cost::<S, C, G>(g);
    assert forall|x: Entry<S, C>, y: Entry<S, C>|
        (#[trigger] precedes(rule, x, y) ==> at_most(x.score, y.score)) && (
        !precedes(rule, x, y) ==> at_most(y.score, x.score)) by {
        assert(at_most(x.score, y.score) || at_most(y.score, x.score));
    }
}

/// Expanding an entry scores every new entry with the cost of a trail to its state.
proof fn lemma_expand_tallied<S: State, C: Ord + Default + Add<Output = C>, G: Fn(&S, &S::Action) -> C>(
    g: G,
    start: S,
    rest: Frame<S, C>,
    parent: Entry<S, C>,
    k: nat,
)
    requires
        tallied(g, start, rest),
        costs(g, start, rest.seen, parent.state, parent.score),
        passes(parent.state),
        k <= parent.state.actions().len(),
    ensures
        tallied(g, start, expand(by_cost(g), rest, parent, parent.state.actions(), k)),
        costs(
            g,
            start,
            expand(by_cost(g), rest, parent, parent.state.actions(), k).seen,
            parent.state,
            parent.score,
        ),
    decreases k,
{
    if k > 0 {
        let rule = by_cost::<S, C, G>(g);
        let acts = parent.state.actions();
        lemma_expand_tallied(g, start, rest, parent, (k - 1) as nat);
        let sofar = expand(rule, rest, parent, acts, (k - 1) as nat);
        let f = expand(rule, rest, parent, acts, k);
        let c = child(rule, parent, acts[k - 1]);
        if !sofar.seen.contains(c.state) {
            assert(f.open == sofar.open.push(c));
            let to = choose|to: Seq<S::Action>| #[trigger]
                trail(start, sofar.seen, to, parent.state) && toll(g, start, to) == parent.score;
            assert(acts.contains(acts[k - 1]));
            lemma_step(start, sofar.seen, to, acts[k - 1]);
            let via = to.push(acts[k - 1]);
            assert(trail(start, f.seen, via, c.state) && toll(g, start, via) == c.score);
            assert(trail(start, f.seen, to, parent.state));
            assert forall|i: int| 0 <= i < f.open.len() implies costs(
                g,
                start,
                f.seen,
                (#[trigger] f.open[i]).state,
                f.open[i].score,
            ) by {
                if i < sofar.open.len() {
                    assert(f.open[i] == sofar.open[i]);
                    let old = choose|old: Seq<S::Action>| #[trigger]
                        trail(start, sofar.seen, old, sofar.open[i].state) && toll(g, start, old)
                            == sofar.open[i].score;
                    assert(trail(start, f.seen, old, f.open[i].state));
                }
            }
        }
    }
}

proof fn lemma_uniform_cost_run<S: State, C: Ord + Default + Add<Output = C>, G: Fn(&S, &S::Action) -> C>(
    g: G,
    goal: spec_fn(S) -> bool,
    start: S,
    frame: Frame<S, C>,
    book: Map<S, C>,
    rounds: nat,
    walk: Seq<S::Action>,
)
    requires
        reach(start).finite(),
        ordered::<C>(),
        coherent(goal, start, frame),
        tallied(g, start, frame),
        booked(frame, book),
        rounds > remaining(start, frame),
        viable(start, walk),
        passes(follow(start, walk)),
        goal(follow(start, walk)),
        unhindered(
            noted_in(by_cost(g), goal, frame, book, rounds),
            whole::<C>(),
            start,
            walk,
            toll(g, start, walk),
        ),
    ensures
        cheap(g, start, run(by_cost(g), goal, frame, rounds), toll(g, start, walk)),
    decreases rounds,
{
    let rule = by_cost::<S, C, G>(g);
    let target = follow(start, walk);
    let bound = toll(g, start, walk);
    assert(reach(start).contains(target));
    if frame.open.len() == 0 {
        lemma_exhausted(goal, start, frame);
        assert(!goal(target));
    } else {
        lemma_advance(rule, goal, start, frame);
        lemma_by_cost_keyed::<S, C, G>(g);
        lemma_pick_in_range(rule, frame.open);
        let at = pick(rule, frame.open);
        let taken = frame.open[at];
        let rest = Frame { seen: frame.seen, open: frame.open.remove(at) };
        if goal(taken.state) && passes(taken.state) {
            assert(noted_in(rule, goal, frame, book, rounds) == book);
            lemma_taken_within(rule, whole::<C>(), goal, start, frame, book, walk, bound);
            let via = choose|via: Seq<S::Action>| #[trigger]
                trail(start, frame.seen, via, taken.state) && toll(g, start, via) == taken.score;
            assert(viable(start, via) && simple(start, via) && follow(start, via) == taken.state
                && at_most(toll(g, start, via), bound));
            assert(run(rule, goal, frame, rounds) == Some(taken.state));
        } else {
            lemma_take(frame, at);
            assert forall|i: int| 0 <= i < rest.open.len() implies #[trigger] rest.open[i] == frame.open[if i
                < at {
                i
            } else {
                i + 1
            }] by {}
            assert(tallied(g, start, rest));
            assert(booked(rest, book));
            if passes(taken.state) {
                let n = taken.state.actions().len();
                let next = expand(rule, rest, taken, taken.state.actions(), n);
                let more = note(rule, rest, book, taken, taken.state.actions(), n);
                lemma_expand_tallied(g, start, rest, taken, n);
                lemma_note(rule, rest, book, taken, taken.state.actions(), n);
                assert(run(rule, goal, frame, rounds) == run(rule, goal, next, (rounds - 1) as nat));
                assert(noted_in(rule, goal, frame, book, rounds) == noted_in(
                    rule,
                    goal,
                    next,
                    more,
                    (rounds - 1) as nat,
                ));
                lemma_uniform_cost_run(g, goal, start, next, more, (rounds - 1) as nat, walk);
            } else {
                assert(run(rule, goal, frame, rounds) == run(rule, goal, rest, (rounds - 1) as nat));
                assert(noted_in(rule, goal, frame, book, rounds) == noted_in(
                    rule,
                    goal,
                    rest,
                    book,
                    (rounds - 1) as nat,
                ));
                lemma_uniform_cost_run(g, goal, start, rest, book, (rounds - 1) as nat, walk);
            }
        }
    }
}

/// Uniform-cost search returns a goal that no walk reaches cheaper, unless a
/// state on that walk was first discovered at a higher cost than the walk has
/// in all; see [`cheapest`].
pub proof fn law_uniform_cost_is_cheapest<
    S: State,
    C: Ord + Default + Add<Output = C>,
    G: Fn(&S, &S::Action) -> C,
>(g: G, goal: spec_fn(S) -> bool, start: S)
    requires
        reach(start).finite(),
        ordered::<C>(),
    ensures
        cheapest(g, goal, start, outcome(by_cost(g), goal, start)),
{
    let rule = by_cost::<S, C, G>(g);
    let frame = opening(rule, start);
    let book = Map::<S, C>::empty().insert(start, rule.first);
    lemma_opening(rule, goal, start);
    assert(tallied(g, start, frame)) by {
        let none = Seq::<S::Action>::empty();
        assert(trail(start, frame.seen, none, start) && toll(g, start, none) == zero::<C>());
    }
    assert forall|walk: Seq<S::Action>| #[trigger]
        viable(start, walk) && passes(follow(start, walk)) && goal(follow(start, walk)) && unhindered(
            discovery(rule, goal, start),
            whole::<C>(),
            start,
            walk,
            toll(g, start, walk),
        ) implies cheap(g, start, outcome(rule, goal, start), toll(g, start, walk)) by {
        lemma_uniform_cost_run(g, goal, start, frame, book, rounds_needed(start), walk);
    }
}

/// Adding a cost that is not negative, where the sum can be formed, does not
/// lead to a smaller cost.
pub open spec fn adding_grows<C: Ord + Default + Add<Output = C>>() -> bool {
    forall|a: C, step: C|
        a.add_req(step) && at_most(zero::<C>(), step) ==> at_most(a, #[trigger] a.add_spec(step))
}

/// No step that a traversal from `start` can take costs less than nothing.
pub open spec fn never_negative<S: State, C: Ord + Default, G: Fn(&S, &S::Action) -> C>(
    g: G,
    start: S,
) -> bool {
    forall|s: S, action: S::Action|
        reach(start).contains(s) && passes(s) && s.actions().contains(action) ==> at_most(
            zero::<C>(),
            #[trigger] price(g, s, action),
        )
}

/// Along every viable walk that repeats no state the accumulated cost stays
/// in the range of the cost type.
pub open spec fn sums_in_range<S: State, C: Default + Add<Output = C>, G: Fn(&S, &S::Action) -> C>(
    g: G,
    start: S,
) -> bool {
    forall|acts: Seq<S::Action>| #[trigger]
        viable(start, acts) && simple(start, acts) && acts.len() > 0 ==> toll(
            g,
            start,
            acts.drop_last(),
        ).add_req(price(g, follow(start, acts.drop_last()), acts.last()))
}

/// Viable walks that repeat no state and end in the same state accumulate the
/// same cost, as they do in a tree.
pub open spec fn routes_agree<S: State, C: Default + Add<Output = C>, G: Fn(&S, &S::Action) -> C>(
    g: G,
    start: S,
) -> bool {
    forall|p: Seq<S::Action>, q: Seq<S::Action>|
        #![trigger toll(g, start, p), toll(g, start, q)]
        viable(start, p) && simple(start, p) && viable(start, q) && simple(start, q) && follow(start, p)
            == follow(start, q) ==> toll(g, start, p) == toll(g, start, q)
}

/// Whatever viable walk that repeats no state ends in a valid goal, `found`
/// holds a state that is reached at no higher cost.
pub open spec fn cheapest_of_all<S: State, C: Ord + Default + Add<Output = C>, G: Fn(&S, &S::Action) -> C>(
    g: G,
    goal: spec_fn(S) -> bool,
    start: S,
    found: Option<S>,
) -> bool {
    forall|walk: Seq<S::Action>| #[trigger]
        viable(start, walk) && simple(start, walk) && passes(follow(start, walk)) && goal(
            follow(start, walk),
        ) ==> cheap(g, start, found, toll(g, start, walk))
}

/// Every state on record is on record with the cost that a trail to it accumulates.
pub open spec fn entered<S: State, C: Default + Add<Output = C>, G: Fn(&S, &S::Action) -> C>(
    g: G,
    start: S,
    seen: Set<S>,
    book: Map<S, C>,
) -> bool {
    forall|s: S| #[trigger] book.dom().contains(s) ==> costs(g, start, seen, s, book[s])
}

/// Expanding an entry puts every new state on record with the cost of a trail to it.
proof fn lemma_note_entered<S: State, C: Ord + Default + Add<Output = C>, G: Fn(&S, &S::Action) -> C>(
    g: G,
    start: S,
    rest: Frame<S, C>,
    book: Map<S, C>,
    parent: Entry<S, C>,
    k: nat,
)
    requires
        entered(g, start, rest.seen, book),
        costs(g, start, rest.seen, parent.state, parent.score),
        passes(parent.state),
        k <= parent.state.actions().len(),
    ensures
        entered(
            g,
            start,
            expand(by_cost(g), rest, parent, parent.state.actions(), k).seen,
            note(by_cost(g), rest, book, parent, parent.state.actions(), k),
        ),
        costs(
            g,
            start,
            expand(by_cost(g), rest, parent, parent.state.actions(), k).seen,
            parent.state,
            parent.score,
        ),
    decreases k,
{
    if k > 0 {
        let rule = by_cost::<S, C, G>(g);
        let acts = parent.state.actions();
        lemma_note_entered(g, start, rest, book, parent, (k - 1) as nat);
        let sofar = expand(rule, rest, parent, acts, (k - 1) as nat);
        let kept = note(rule, rest, book, parent, acts, (k - 1) as nat);
        let f = expand(rule, rest, parent, acts, k);
        let more = note(rule, rest, book, parent, acts, k);
        let c = child(rule, parent, acts[k - 1]);
        if !sofar.seen.contains(c.state) {
            let to = choose|to: Seq<S::Action>| #[trigger]
                trail(start, sofar.seen, to, parent.state) && toll(g, start, to) == parent.score;
            assert(acts.contains(acts[k - 1]));
            lemma_step(start, sofar.seen, to, acts[k - 1]);
            let via = to.push(acts[k - 1]);
            assert(trail(start, f.seen, via, c.state) && toll(g, start, via) == c.score);
            assert(trail(start, f.seen, to, parent.state));
            assert forall|s: S| #[trigger] more.dom().contains(s) implies costs(g, start, f.seen, s, more[s]) by {
                if s != c.state {
                    assert(kept.dom().contains(s));
                    let old = choose|old: Seq<S::Action>| #[trigger]
                        trail(start, sofar.seen, old, s) && toll(g, start, old) == kept[s];
                    assert(trail(start, f.seen, old, s));
                }
            }
        }
    }
}

/// Every state that a uniform-cost traversal puts on record is on record with
/// the cost that a viable walk to it, which repeats no state, accumulates.
proof fn lemma_noted_entered<S: State, C: Ord + Default + Add<Output = C>, G: Fn(&S, &S::Action) -> C>(
    g: G,
    goal: spec_fn(S) -> bool,
    start: S,
    frame: Frame<S, C>,
    book: Map<S, C>,
    rounds: nat,
)
    requires
        reach(start).finite(),
        coherent(goal, start, frame),
        tallied(g, start, frame),
        entered(g, start, frame.seen, book),
    ensures
        forall|s: S| #[trigger]
            noted_in(by_cost(g), goal, frame, book, rounds).dom().contains(s) ==> costs(
                g,
                start,
                reach(start),
                s,
                noted_in(by_cost(g), goal, frame, book, rounds)[s],
            ),
    decreases rounds,
{
    let rule = by_cost::<S, C, G>(g);
    let last = noted_in(rule, goal, frame, book, rounds);
    if rounds > 0 && frame.open.len() > 0 {
        lemma_advance(rule, goal, start, frame);
        lemma_pick_in_range(rule, frame.open);
        let at = pick(rule, frame.open);
        let taken = frame.open[at];
        let rest = Frame { seen: frame.seen, open: frame.open.remove(at) };
        if !(goal(taken.state) && passes(taken.state)) {
            assert forall|i: int| 0 <= i < rest.open.len() implies #[trigger] rest.open[i] == frame.open[if i
                < at {
                i
            } else {
                i + 1
            }] by {}
            assert(tallied(g, start, rest));
            if passes(taken.state) {
                let n = taken.state.actions().len();
                let next = expand(rule, rest, taken, taken.state.actions(), n);
                let more = note(rule, rest, book, taken, taken.state.actions(), n);
                lemma_expand_tallied(g, start, rest, taken, n);
                lemma_note_entered(g, start, rest, book, taken, n);
                assert(last == noted_in(rule, goal, next, more, (rounds - 1) as nat));
                lemma_noted_entered(g, goal, start, next, more, (rounds - 1) as nat);
            } else {
                assert(last == noted_in(rule, goal, rest, book, (rounds - 1) as nat));
                lemma_noted_entered(g, goal, start, rest, book, (rounds - 1) as nat);
            }
            return ;
        }
    }
    assert(last == book);
    assert forall|s: S| #[trigger] last.dom().contains(s) implies costs(g, start, reach(start), s, last[s]) by {
        let via = choose|via: Seq<S::Action>| #[trigger]
            trail(start, frame.seen, via, s) && toll(g, start, via) == book[s];
        assert(trail(start, reach(start), via, s));
    }
}

/// Where no step costs less than nothing, a state that a walk comes through
/// is reached by part of the walk at no higher cost than the walk has in all.
proof fn lemma_part_costs_less<S: State, C: Ord + Default + Add<Output = C>, G: Fn(&S, &S::Action) -> C>(
    g: G,
    start: S,
    walk: Seq<S::Action>,
    s: S,
)
    requires
        ordered::<C>(),
        adding_grows::<C>(),
        never_negative(g, start),
        sums_in_range(g, start),
        viable(start, walk),
        simple(start, walk),
        visits(start, walk, s),
    ensures
        exists|part: Seq<S::Action>| #[trigger]
            trail(start, reach(start), part, s) && at_most(toll(g, start, part), toll(g, start, walk)),
    decreases walk.len(),
{
    lemma_at_most_itself(toll(g, start, walk));
    lemma_trail_in_reach(start, walk);
    if follow(start, walk) != s {
        let shorter = walk.drop_last();
        lemma_part_costs_less(g, start, shorter, s);
        let part = choose|part: Seq<S::Action>| #[trigger]
            trail(start, reach(start), part, s) && at_most(toll(g, start, part), toll(g, start, shorter));
        let from = follow(start, shorter);
        assert(reach(start).contains(from));
        assert(at_most(zero::<C>(), price(g, from, walk.last())));
        assert(at_most(toll(g, start, shorter), toll(g, start, walk)));
        assert(trail(start, reach(start), part, s) && at_most(toll(g, start, part), toll(g, start, walk)));
    } else {
        assert(trail(start, reach(start), walk, s));
    }
}

/// A viable walk comes through reachable states only.
proof fn lemma_trail_in_reach<S: State>(start: S, walk: Seq<S::Action>)
    requires
        viable(start, walk),
    ensures
        forall|t: S| #[trigger] visits(start, walk, t) ==> reach(start).contains(t),
    decreases walk.len(),
{
    assert(reach(start).contains(follow(start, walk)));
    if walk.len() > 0 {
        lemma_trail_in_reach(start, walk.drop_last());
    }
    assert forall|t: S| #[trigger] visits(start, walk, t) implies reach(start).contains(t) by {
        if follow(start, walk) != t {
            assert(visits(start, walk.drop_last(), t));
        }
    }
}

/// Where no step costs less than nothing, sums stay in range, and the cost of
/// reaching a state does not depend on the walk, uniform-cost search returns a
/// cheapest goal.
pub proof fn law_uniform_cost_where_routes_agree<
    S: State,
    C: Ord + Default + Add<Output = C>,
    G: Fn(&S, &S::Action) -> C,
>(g: G, goal: spec_fn(S) -> bool, start: S)
    requires
        reach(start).finite(),
        ordered::<C>(),
        adding_grows::<C>(),
        never_negative(g, start),
        sums_in_range(g, start),
        routes_agree(g, start),
    ensures
        cheapest_of_all(g, goal, start, outcome(by_cost(g), goal, start)),
{
    let rule = by_cost::<S, C, G>(g);
    let frame = opening(rule, start);
    let book = Map::<S, C>::empty().insert(start, rule.first);
    let last = discovery(rule, goal, start);
    lemma_opening(rule, goal, start);
    assert(trail(start, frame.seen, Seq::<S::Action>::empty(), start) && toll(
        g,
        start,
        Seq::<S::Action>::empty(),
    ) == zero::<C>());
    assert(tallied(g, start, frame));
    assert(entered(g, start, frame.seen, book));
    lemma_noted_entered(g, goal, start, frame, book, rounds_needed(start));
    law_uniform_cost_is_cheapest(g, goal, start);
    assert forall|walk: Seq<S::Action>| #[trigger]
        viable(start, walk) && simple(start, walk) && passes(follow(start, walk)) && goal(
            follow(start, walk),
        ) implies cheap(g, start, outcome(rule, goal, start), toll(g, start, walk)) by {
        assert forall|s: S| #[trigger] visits(start, walk, s) && last.dom().contains(s) implies at_most(
            whole::<C>()(last[s]),
            toll(g, start, walk),
        ) by {
            lemma_part_costs_less(g, start, walk, s);
            let part = choose|part: Seq<S::Action>| #[trigger]
                trail(start, reach(start), part, s) && at_most(toll(g, start, part), toll(g, start, walk));
            let via = choose|via: Seq<S::Action>| #[trigger]
                trail(start, reach(start), via, s) && toll(g, start, via) == last[s];
            assert(toll(g, start, via) == toll(g, start, part));
        }
    }
}

} // verus!
