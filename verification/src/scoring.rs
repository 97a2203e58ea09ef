//! The informed strategies: scores made of step costs and heuristic estimates.
use crate::model::{Entry, Order, Rule};
use crate::state::{follow, lemma_step, passes, reach, simple, trail, viable, State};
use crate::strategy::Strategy;
use std::cmp::Ordering;
use std::ops::Add;
use vstd::prelude::*;
use vstd::std_specs::cmp::OrdSpec;
use vstd::std_specs::ops::AddSpec;

verus! {

/// The additive identity of a cost type: the value `C::default()` returns.
pub open spec fn zero<C: Default>() -> C {
    choose|c: C| call_ensures(C::default, (), c)
}

/// `C::default()` returns the same value every time.
pub open spec fn zero_decided<C: Default>() -> bool {
    forall|c: C| #[trigger] call_ensures(C::default, (), c) ==> c == zero::<C>()
}

/// The cost that the step-cost function `g` gives to `action` taken in `s`.
pub open spec fn price<S: State, C, G: Fn(&S, &S::Action) -> C>(g: G, s: S, action: S::Action) -> C {
    choose|c: C| call_ensures(g, (&s, &action), c)
}

/// `g` can be asked about every action legal in a reachable valid state, and
/// gives the same cost for the same step every time.
pub open spec fn priced<S: State, C, G: Fn(&S, &S::Action) -> C>(g: G, start: S) -> bool {
    &&& forall|s: S, action: S::Action|
        reach(start).contains(s) && passes(s) && s.actions().contains(action) ==> #[trigger] call_requires(
            g,
            (&s, &action),
        )
    &&& forall|s: S, action: S::Action, c: C|
        reach(start).contains(s) && passes(s) && s.actions().contains(action) && #[trigger] call_ensures(
            g,
            (&s, &action),
            c,
        ) ==> c == price(g, s, action)
}

/// The estimate that the heuristic `h` gives for `s`.
pub open spec fn guess<S, C, H: Fn(&S) -> C>(h: H, s: S) -> C {
    choose|c: C| call_ensures(h, (&s,), c)
}

/// `h` can be asked about every reachable valid state, and gives the same
/// estimate for the same state every time.
pub open spec fn guessed<S: State, C, H: Fn(&S) -> C>(h: H, start: S) -> bool {
    &&& forall|s: S| reach(start).contains(s) && passes(s) ==> #[trigger] call_requires(h, (&s,))
    &&& forall|s: S, c: C|
        reach(start).contains(s) && passes(s) && #[trigger] call_ensures(h, (&s,), c) ==> c == guess(
            h,
            s,
        )
}

/// The last step of the walk `acts` costs `step`, which added to `before` gives `total`.
pub open spec fn adds_last<S: State, C: Add<Output = C>, G: Fn(&S, &S::Action) -> C>(
    g: G,
    start: S,
    acts: Seq<S::Action>,
    before: C,
    step: C,
    total: C,
) -> bool {
    call_ensures(g, (&follow(start, acts.drop_last()), &acts.last()), step) && total == before.add_spec(
        step,
    )
}

/// `total` is what the step costs along the walk `acts` from `start` add up
/// to, whatever `g` may answer along the way.
pub open spec fn accumulates<S: State, C: Default + Add<Output = C>, G: Fn(&S, &S::Action) -> C>(
    g: G,
    start: S,
    acts: Seq<S::Action>,
    total: C,
) -> bool
    decreases acts.len(),
{
    if acts.len() == 0 {
        call_ensures(C::default, (), total)
    } else {
        exists|before: C, step: C|
            accumulates(g, start, acts.drop_last(), before) && #[trigger] adds_last(
                g,
                start,
                acts,
                before,
                step,
                total,
            )
    }
}

/// Along every viable walk that repeats no state the accumulated cost can be
/// formed: no addition of a step cost leaves the range of the cost type.
/// A traversal adds along such walks only, so a cycle does no harm.
pub open spec fn affordable<S: State, C: Default + Add<Output = C>, G: Fn(&S, &S::Action) -> C>(
    g: G,
    start: S,
) -> bool {
    forall|acts: Seq<S::Action>, action: S::Action, before: C, step: C|
        #![trigger accumulates(g, start, acts, before), call_ensures(g, (&follow(start, acts), &action), step)]
        viable(start, acts.push(action)) && simple(start, acts.push(action)) && accumulates(
            g,
            start,
            acts,
            before,
        ) && call_ensures(g, (&follow(start, acts), &action), step) ==> before.add_req(step)
}

/// Along every viable walk that repeats no state, the estimate of the state a
/// step leaves from can be added to the cost accumulated with that step.
pub open spec fn rankable<
    S: State,
    C: Default + Add<Output = C>,
    G: Fn(&S, &S::Action) -> C,
    H: Fn(&S) -> C,
>(g: G, h: H, start: S) -> bool {
    forall|acts: Seq<S::Action>, action: S::Action, before: C, step: C, estimate: C|
        #![trigger accumulates(g, start, acts, before), call_ensures(g, (&follow(start, acts), &action), step), call_ensures(h, (&follow(start, acts),), estimate)]
        viable(start, acts.push(action)) && simple(start, acts.push(action)) && accumulates(
            g,
            start,
            acts,
            before,
        ) && call_ensures(g, (&follow(start, acts), &action), step) && call_ensures(
            h,
            (&follow(start, acts),),
            estimate,
        ) ==> before.add_spec(step).add_req(estimate)
}

/// `acts` is a trail from `start` to `s` whose step costs add up to `cost`.
pub open spec fn discovers<S: State, C: Default + Add<Output = C>, G: Fn(&S, &S::Action) -> C>(
    g: G,
    start: S,
    seen: Set<S>,
    acts: Seq<S::Action>,
    s: S,
    cost: C,
) -> bool {
    &&& trail(start, seen, acts, s)
    &&& accumulates(g, start, acts, cost)
}

/// Some walk discovers `s` at the cost `cost`; see [`discovers`].
pub open spec fn accrues<S: State, C: Default + Add<Output = C>, G: Fn(&S, &S::Action) -> C>(
    g: G,
    start: S,
    seen: Set<S>,
    s: S,
    cost: C,
) -> bool {
    exists|acts: Seq<S::Action>| #[trigger] discovers(g, start, seen, acts, s, cost)
}

/// A step from the end of a discovering walk to a state not yet seen gives a
/// discovering walk, and adds its cost to what the walk accumulates.
pub proof fn lemma_accrue<S: State, C: Default + Add<Output = C>, G: Fn(&S, &S::Action) -> C>(
    g: G,
    start: S,
    seen: Set<S>,
    acts: Seq<S::Action>,
    s: S,
    cost: C,
    action: S::Action,
    step: C,
)
    requires
        discovers(g, start, seen, acts, s, cost),
        passes(s),
        s.actions().contains(action),
        !seen.contains(s.successor(&action)),
        call_ensures(g, (&s, &action), step),
    ensures
        acts.push(action).drop_last() == acts,
        discovers(
            g,
            start,
            seen.insert(s.successor(&action)),
            acts.push(action),
            s.successor(&action),
            cost.add_spec(step),
        ),
        affordable(g, start) ==> cost.add_req(step),
{
    let longer = acts.push(action);
    lemma_step(start, seen, acts, action);
    assert(accumulates(g, start, longer.drop_last(), cost) && adds_last(
        g,
        start,
        longer,
        cost,
        step,
        cost.add_spec(step),
    ));
    assert(accumulates(g, start, longer, cost.add_spec(step)));
}

/// The additive identity, as `C::default()` returns it.
pub fn nothing<C: Default>() -> (c: C)
    requires
        zero_decided::<C>(),
    ensures
        c == zero::<C>(),
        call_ensures(C::default, (), c),
{
    C::default()
}

/// The rule of uniform-cost search: a state is scored with the accumulated
/// cost of the walk that discovered it.
pub open spec fn by_cost<S: State, C: Ord + Default + Add<Output = C>, G: Fn(&S, &S::Action) -> C>(
    g: G,
) -> Rule<S, C> {
    Rule {
        order: Order::LeastFirst,
        first: zero::<C>(),
        score: |s: S, held: C, action: S::Action| held.add_spec(price(g, s, action)),
        before: |a: C, b: C| a.cmp_spec(&b) == Ordering::Less,
    }
}

/// What uniform-cost search relies on.
pub open spec fn cost_ready<S: State, C: Ord + Default + Add<Output = C>, G: Fn(&S, &S::Action) -> C>(
    g: G,
    start: S,
) -> bool {
    &&& C::obeys_cmp_spec()
    &&& C::obeys_add_spec()
    &&& zero_decided::<C>()
    &&& priced(g, start)
    &&& affordable(g, start)
}

/// The rule of greedy best-first search: a state is scored with the estimate
/// of the state it was discovered from.
pub open spec fn by_estimate<S: State, C: Ord + Default, H: Fn(&S) -> C>(h: H) -> Rule<S, C> {
    Rule {
        order: Order::LeastFirst,
        first: zero::<C>(),
        score: |s: S, held: C, action: S::Action| guess(h, s),
        before: |a: C, b: C| a.cmp_spec(&b) == Ordering::Less,
    }
}

/// What greedy best-first search relies on.
pub open spec fn estimate_ready<S: State, C: Ord + Default, H: Fn(&S) -> C>(h: H, start: S) -> bool {
    &&& C::obeys_cmp_spec()
    &&& zero_decided::<C>()
    &&& guessed(h, start)
}

/// The rule of A* search: a state is scored with its accumulated cost and,
/// to rank it, that cost plus the estimate of the state it was discovered from.
pub open spec fn by_sum<
    S: State,
    C: Ord + Default + Add<Output = C>,
    G: Fn(&S, &S::Action) -> C,
    H: Fn(&S) -> C,
>(g: G, h: H) -> Rule<S, (C, C)> {
    Rule {
        order: Order::LeastFirst,
        first: (zero::<C>(), zero::<C>()),
        score: |s: S, held: (C, C), action: S::Action|
            (
                held.0.add_spec(price(g, s, action)),
                held.0.add_spec(price(g, s, action)).add_spec(guess(h, s)),
            ),
        before: |a: (C, C), b: (C, C)| a.1.cmp_spec(&b.1) == Ordering::Less,
    }
}

/// What A* search relies on.
pub open spec fn sum_ready<
    S: State,
    C: Ord + Default + Add<Output = C>,
    G: Fn(&S, &S::Action) -> C,
    H: Fn(&S) -> C,
>(g: G, h: H, start: S) -> bool {
    &&& C::obeys_cmp_spec()
    &&& C::obeys_add_spec()
    &&& zero_decided::<C>()
    &&& priced(g, start)
    &&& guessed(h, start)
    &&& affordable(g, start)
    &&& rankable(g, h, start)
}

/// Scores a state with the accumulated cost of the walk that discovered it.
pub(crate) struct ByCost<G> {
    pub step: G,
}

impl<S, C, G> Strategy<S, C> for ByCost<G> where
    S: State,
    C: Ord + Default + Add<Output = C> + Copy,
    G: Fn(&S, &S::Action) -> C,
 {
    open spec fn rule(&self) -> Rule<S, C> {
        by_cost(self.step)
    }

    open spec fn ready(&self, start: S) -> bool {
        cost_ready(self.step, start)
    }

    open spec fn fits(&self, start: S, seen: Set<S>, e: Entry<S, C>) -> bool {
        accrues(self.step, start, seen, e.state, e.score)
    }

    fn order(&self) -> (o: Order) {
        Order::LeastFirst
    }

    fn first(&self, start: Ghost<S>) -> (p: C) {
        let nothing = nothing::<C>();
        proof {
            assert(discovers(self.step, start@, set![start@], Seq::<S::Action>::empty(), start@, nothing));
        }
        nothing
    }

    fn score(
        &self,
        state: &S,
        held: &C,
        action: &S::Action,
        start: Ghost<S>,
        seen: Ghost<Set<S>>,
        depth: Ghost<nat>,
    ) -> (p: C) {
        let step = (self.step)(state, action);
        proof {
            let acts = choose|acts: Seq<S::Action>| #[trigger]
                discovers(self.step, start@, seen@, acts, *state, *held);
            lemma_accrue(self.step, start@, seen@, acts, *state, *held, *action, step);
        }
        *held + step
    }

    fn before(&self, a: &C, b: &C, start: Ghost<S>) -> (r: bool) {
        match a.cmp(b) {
            Ordering::Less => true,
            _ => false,
        }
    }

    proof fn lemma_fits_on(&self, start: S, seen: Set<S>, more: Set<S>, e: Entry<S, C>) {
        let acts = choose|acts: Seq<S::Action>| #[trigger]
            discovers(self.step, start, seen, acts, e.state, e.score);
        assert(discovers(self.step, start, more, acts, e.state, e.score));
    }
}

/// Scores a state with the estimate of the state it was discovered from.
pub(crate) struct ByEstimate<H> {
    pub estimate: H,
}

impl<S, C, H> Strategy<S, C> for ByEstimate<H> where S: State, C: Ord + Default, H: Fn(&S) -> C {
    open spec fn rule(&self) -> Rule<S, C> {
        by_estimate(self.estimate)
    }

    open spec fn ready(&self, start: S) -> bool {
        estimate_ready(self.estimate, start)
    }

    open spec fn fits(&self, start: S, seen: Set<S>, e: Entry<S, C>) -> bool {
        true
    }

    fn order(&self) -> (o: Order) {
        Order::LeastFirst
    }

    fn first(&self, start: Ghost<S>) -> (p: C) {
        nothing::<C>()
    }

    fn score(
        &self,
        state: &S,
        held: &C,
        action: &S::Action,
        start: Ghost<S>,
        seen: Ghost<Set<S>>,
        depth: Ghost<nat>,
    ) -> (p: C) {
        (self.estimate)(state)
    }

    fn before(&self, a: &C, b: &C, start: Ghost<S>) -> (r: bool) {
        match a.cmp(b) {
            Ordering::Less => true,
            _ => false,
        }
    }

    proof fn lemma_fits_on(&self, start: S, seen: Set<S>, more: Set<S>, e: Entry<S, C>) {
    }
}

/// Scores a state with its accumulated cost, and ranks it by that cost plus
/// the estimate of the state it was discovered from.
pub(crate) struct BySum<G, H> {
    pub step: G,
    pub estimate: H,
}

impl<S, C, G, H> Strategy<S, (C, C)> for BySum<G, H> where
    S: State,
    C: Ord + Default + Add<Output = C> + Copy,
    G: Fn(&S, &S::Action) -> C,
    H: Fn(&S) -> C,
 {
    open spec fn rule(&self) -> Rule<S, (C, C)> {
        by_sum(self.step, self.estimate)
    }

    open spec fn ready(&self, start: S) -> bool {
        sum_ready(self.step, self.estimate, start)
    }

    open spec fn fits(&self, start: S, seen: Set<S>, e: Entry<S, (C, C)>) -> bool {
        accrues(self.step, start, seen, e.state, e.score.0)
    }

    fn order(&self) -> (o: Order) {
        Order::LeastFirst
    }

    fn first(&self, start: Ghost<S>) -> (p: (C, C)) {
        let nothing = nothing::<C>();
        proof {
            assert(discovers(self.step, start@, set![start@], Seq::<S::Action>::empty(), start@, nothing));
        }
        (nothing, nothing)
    }

    fn score(
        &self,
        state: &S,
        held: &(C, C),
        action: &S::Action,
        start: Ghost<S>,
        seen: Ghost<Set<S>>,
        depth: Ghost<nat>,
    ) -> (p: (C, C)) {
        let step = (self.step)(state, action);
        let estimate = (self.estimate)(state);
        proof {
            let acts = choose|acts: Seq<S::Action>| #[trigger]
                discovers(self.step, start@, seen@, acts, *state, held.0);
            lemma_accrue(self.step, start@, seen@, acts, *state, held.0, *action, step);
            assert(held.0.add_spec(step).add_req(estimate));
        }
        let cost = held.0 + step;
        (cost, cost + estimate)
    }

    fn before(&self, a: &(C, C), b: &(C, C), start: Ghost<S>) -> (r: bool) {
        match a.1.cmp(&b.1) {
            Ordering::Less => true,
            _ => false,
        }
    }

    proof fn lemma_fits_on(&self, start: S, seen: Set<S>, more: Set<S>, e: Entry<S, (C, C)>) {
        let acts = choose|acts: Seq<S::Action>| #[trigger]
            discovers(self.step, start, seen, acts, e.state, e.score.0);
        assert(discovers(self.step, start, more, acts, e.state, e.score.0));
    }
}

} // verus!
