//! A search problem and the five traversals it offers.
use crate::cheapest::{
    adding_grows, cheapest, cheapest_of_all, law_uniform_cost_is_cheapest,
    law_uniform_cost_where_routes_agree, never_negative, routes_agree, sums_in_range,
};
use crate::coherence::{coherent, lemma_advance, lemma_opening, remaining};
use crate::even_cost::{flat, law_even_cost_is_breadth_first, steady};
use crate::frontier::{entries, select, Node};
use crate::handle::{behind, share, states_of, unshared};
use crate::laws::{answers, law_sound_and_complete};
use crate::least_first::ordered;
use crate::model::{expand, opening, outcome, rounds_needed, run, Frame, Order};
use crate::ranked::{cheapest_ranked, law_a_star_is_cheapest, never_below_zero, ranks_in_range};
use crate::scoring::{
    by_cost, by_estimate, by_sum, cost_ready, estimate_ready, sum_ready, ByCost, ByEstimate, BySum,
};
use crate::shallowest::{law_breadth_first_is_shallowest, shallowest};
use crate::state::{named, passes, reach, validity_decided, State};
use crate::strategy::{blind, Blind, Strategy};
use crate::zero_estimate::{estimates_nothing, law_zero_estimate_is_uniform_cost, zero_is_neutral};
use std::collections::HashSet;
use std::collections::VecDeque;
use std::hash::Hash;
use std::ops::Add;
use std::rc::Rc;
use vstd::prelude::*;
use vstd::set_lib::lemma_map_size_bound;
use vstd::std_specs::hash::obeys_key_model;

verus! {

/// The goal test that a predicate stands for: the states it does not reject.
/// Where the predicate is decided, these are the states it accepts.
pub open spec fn goal_of<S, GL: Fn(&S) -> bool>(is_goal: GL) -> spec_fn(S) -> bool {
    |s: S| !call_ensures(is_goal, (&s,), false)
}

/// The predicate has accepted the state that was found.
pub open spec fn accepted<S, GL: Fn(&S) -> bool>(is_goal: GL, found: Option<Rc<S>>) -> bool {
    found matches Some(handle) ==> call_ensures(is_goal, (&*handle,), true)
}

/// The predicate can be asked about every state reachable from `start`, and
/// answers the same for the same state every time.
pub open spec fn goal_decided<S: State, GL: Fn(&S) -> bool>(is_goal: GL, start: S) -> bool {
    &&& forall|s: S| reach(start).contains(s) ==> #[trigger] call_requires(is_goal, (&s,))
    &&& forall|s: S|
        reach(start).contains(s) ==> !(#[trigger] call_ensures(is_goal, (&s,), true) && call_ensures(
            is_goal,
            (&s,),
            false,
        ))
}

/// What every traversal from `start` with the goal test `is_goal` relies on.
pub open spec fn searchable<S: State, GL: Fn(&S) -> bool>(is_goal: GL, start: S) -> bool {
    &&& obeys_key_model::<Rc<S>>()
    &&& validity_decided(start)
    &&& reach(start).finite()
    &&& goal_decided(is_goal, start)
}

/// One search instance: a start state and a goal predicate, both fixed once
/// the problem is made.  Every traversal keeps its own record of the states it
/// has seen; nothing is carried from one traversal to the next.
pub struct Problem<S, GL> where S: State + Eq + Hash, GL: Fn(&S) -> bool {
    start_state: Rc<S>,
    is_goal: GL,
}

/// The traversal loop that all strategies share.
#[verifier::loop_isolation(false)]
fn explore<S, GL, P, K>(start: &Rc<S>, is_goal: &GL, plan: &K) -> (found: Option<Rc<S>>) where
    S: State + Eq + Hash,
    GL: Fn(&S) -> bool,
    K: Strategy<S, P>,

    requires
        searchable(*is_goal, **start),
        plan.ready(**start),
    ensures
        unshared(found) == outcome(plan.rule(), goal_of(*is_goal), **start),
        answers(goal_of(*is_goal), **start, unshared(found)),
        accepted(*is_goal, found),
{
    broadcast use vstd::std_specs::hash::group_hash_axioms;

    let ghost origin: S = behind(start);
    let ghost rule = plan.rule();
    let ghost goal = goal_of(*is_goal);
    let mut visited = HashSet::<Rc<S>>::new();
    visited.insert(share(start));
    let mut queue = VecDeque::<Node<S, P>>::new();
    let initial = plan.first(Ghost(origin));
    queue.push_back(Node { state: share(start), depth: 0, score: initial });
    let ghost mut frame = opening(rule, origin);
    let ghost mut rounds = rounds_needed(origin);
    proof {
        lemma_opening(rule, goal, origin);
        assert(visited@.contains(*start));
        assert(states_of(visited@) =~= frame.seen);
        assert(entries(queue@) =~= frame.open);
    }
    while queue.len() > 0
        invariant
            visited@.finite(),
            frame.seen == states_of(visited@),
            frame.open == entries(queue@),
            coherent(goal, origin, frame),
            forall|i: int|
                0 <= i < frame.open.len() ==> plan.fits(origin, frame.seen, #[trigger] frame.open[i]),
            rounds > remaining(origin, frame),
            run(rule, goal, frame, rounds) == outcome(rule, goal, origin),
        decreases remaining(origin, frame),
    {
        let at: usize = select(&queue, plan, Ghost(origin));
        let ghost taken = frame.open[at as int];
        let ghost rest = Frame { seen: frame.seen, open: frame.open.remove(at as int) };
        let node = queue.remove(at).unwrap();
        proof {
            lemma_advance(rule, goal, origin, frame);
            assert(entries(queue@) =~= rest.open);
            assert(node.entry() == taken);
            assert(frame.seen.contains(taken.state));
            assert(reach(origin).contains(taken.state));
            assert(plan.fits(origin, frame.seen, taken));
            assert forall|i: int| 0 <= i < rest.open.len() implies plan.fits(
                origin,
                rest.seen,
                #[trigger] rest.open[i],
            ) by {
                assert(rest.open[i] == frame.open[if i < at { i } else { i + 1 }]);
            }
        }
        let hit = is_goal(&*node.state);
        let ok = node.state.is_valid();
        assert(hit == goal(taken.state));
        assert(ok == passes(taken.state));
        if hit && ok {
            proof {
                law_sound_and_complete(rule, goal, origin);
            }
            return Some(node.state);
        }
        if ok {
            let listed = node.state.get_actions();
            let ghost acts = taken.state.actions();
            assert(named(listed@) == acts);
            proof {
                lemma_map_size_bound(visited@, frame.seen, |handle: Rc<S>| *handle);
                assert(visited.len() == visited@.len());
            }
            let depth: usize = node.depth + 1;
            let mut k: usize = 0;
            let ghost mut grown = rest;
            while k < listed.len()
                invariant
                    k <= listed.len(),
                    visited@.finite(),
                    grown == expand(rule, rest, taken, acts, k as nat),
                    grown.seen == states_of(visited@),
                    grown.open == entries(queue@),
                    plan.fits(origin, grown.seen, taken),
                    forall|i: int|
                        0 <= i < grown.open.len() ==> plan.fits(origin, grown.seen, #[trigger] grown.open[i]),
                decreases listed.len() - k,
            {
                let action = listed[k];
                assert(*action == acts[k as int]);
                assert(acts.contains(*action));
                let next = node.state.transfer(action);
                assert(behind(&next) == taken.state.successor(action));
                let ghost arrived: S = behind(&next);
                let known = visited.contains(&next);
                assert(known == grown.seen.contains(arrived)) by {
                    if known {
                        assert(visited@.contains(next));
                    }
                }
                if !known {
                    let score = plan.score(
                        &*node.state,
                        &node.score,
                        action,
                        Ghost(origin),
                        Ghost(grown.seen),
                        Ghost(taken.depth),
                    );
                    let ghost before = visited@;
                    visited.insert(share(&next));
                    let fresh = Node { state: next, depth, score };
                    proof {
                        let longer = Frame { seen: grown.seen.insert(arrived), open: grown.open.push(fresh.entry()) };
                        assert(states_of(visited@) =~= longer.seen) by {
                            assert(visited@ == before.insert(next));
                            assert forall|s: S| longer.seen.contains(s) implies states_of(visited@).contains(s) by {
                                if s == arrived {
                                    assert(visited@.contains(next));
                                } else {
                                    let h = choose|h: Rc<S>| before.contains(h) && s == *h;
                                    assert(visited@.contains(h));
                                }
                            }
                        }
                        assert(entries(queue@.push(fresh)) =~= longer.open);
                        plan.lemma_fits_on(origin, grown.seen, longer.seen, taken);
                        assert forall|i: int| 0 <= i < longer.open.len() implies plan.fits(
                            origin,
                            longer.seen,
                            #[trigger] longer.open[i],
                        ) by {
                            if i < grown.open.len() {
                                plan.lemma_fits_on(origin, grown.seen, longer.seen, grown.open[i]);
                            }
                        }
                        grown = longer;
                    }
                    queue.push_back(fresh);
                }
                k = k + 1;
            }
            proof {
                assert(listed@.len() == acts.len());
                frame = grown;
            }
        } else {
            proof {
                frame = rest;
            }
        }
        proof {
            rounds = (rounds - 1) as nat;
        }
    }
    proof {
        law_sound_and_complete(rule, goal, origin);
    }
    None
}

impl<S, GL> Problem<S, GL> where S: State + Eq + Hash, GL: Fn(&S) -> bool {
    /// The state every traversal starts from.
    pub closed spec fn start(&self) -> S {
        *self.start_state
    }

    /// The goal predicate.
    pub closed spec fn goal_fn(&self) -> GL {
        self.is_goal
    }

    /// The states the goal predicate accepts.
    pub open spec fn goal(&self) -> spec_fn(S) -> bool {
        goal_of(self.goal_fn())
    }

    /// What every traversal relies on; see [`searchable`].
    pub open spec fn well_posed(&self) -> bool {
        searchable(self.goal_fn(), self.start())
    }

    /// Binds a start state and a goal predicate.
    pub fn new(start_state: Rc<S>, is_goal: GL) -> (problem: Self)
        ensures
            problem.start() == *start_state,
            problem.goal_fn() == is_goal,
    {
        Self { start_state, is_goal }
    }

    /// Takes the waiting states in the order of their discovery, and so
    /// returns a goal that no goal is nearer to the start than.
    pub fn breadth_first_search(&self) -> (found: Option<Rc<S>>)
        requires
            self.well_posed(),
        ensures
            unshared(found) == outcome(blind::<S>(Order::OldestFirst), self.goal(), self.start()),
            answers(self.goal(), self.start(), unshared(found)),
            accepted(self.goal_fn(), found),
            shallowest(self.goal(), self.start(), unshared(found)),
    {
        let plan = Blind { order: Order::OldestFirst };
        proof {
            law_breadth_first_is_shallowest(self.goal(), self.start());
        }
        explore(&self.start_state, &self.is_goal, &plan)
    }

    /// Takes the state discovered last first; the goal returned need not be
    /// the nearest.
    pub fn depth_first_search(&self) -> (found: Option<Rc<S>>)
        requires
            self.well_posed(),
        ensures
            unshared(found) == outcome(blind::<S>(Order::NewestFirst), self.goal(), self.start()),
            answers(self.goal(), self.start(), unshared(found)),
            accepted(self.goal_fn(), found),
    {
        let plan = Blind { order: Order::NewestFirst };
        explore(&self.start_state, &self.is_goal, &plan)
    }

    /// Takes a waiting state of least accumulated cost first; `g` gives the
    /// cost of one step.  A state keeps the cost at which it was first
    /// discovered; the goal returned is a cheapest one unless that cost stands
    /// in the way of a cheaper walk.  Where every step costs the same, this is
    /// breadth-first search.
    pub fn uniform_cost_search<C, G>(&self, g: G) -> (found: Option<Rc<S>>) where
        C: Ord + Default + Add<Output = C> + Copy,
        G: Fn(&S, &S::Action) -> C,

        requires
            self.well_posed(),
            cost_ready(g, self.start()),
        ensures
            unshared(found) == outcome(by_cost(g), self.goal(), self.start()),
            answers(self.goal(), self.start(), unshared(found)),
            accepted(self.goal_fn(), found),
            ordered::<C>() ==> cheapest(g, self.goal(), self.start(), unshared(found)),
            ordered::<C>() && adding_grows::<C>() && never_negative(g, self.start()) && sums_in_range(
                g,
                self.start(),
            ) && routes_agree(g, self.start()) ==> cheapest_of_all(
                g,
                self.goal(),
                self.start(),
                unshared(found),
            ),
            forall|unit: C| #[trigger]
                flat(g, self.start(), unit) && steady(unit, reach(self.start()).len()) ==> unshared(found)
                    == outcome(blind::<S>(Order::OldestFirst), self.goal(), self.start()) && shallowest(
                    self.goal(),
                    self.start(),
                    unshared(found),
                ),
    {
        proof {
            law_breadth_first_is_shallowest(self.goal(), self.start());
            assert forall|unit: C| #[trigger]
                flat(g, self.start(), unit) && steady(unit, reach(self.start()).len()) implies outcome(
                by_cost(g),
                self.goal(),
                self.start(),
            ) == outcome(blind::<S>(Order::OldestFirst), self.goal(), self.start()) by {
                law_even_cost_is_breadth_first(g, unit, self.goal(), self.start());
            }
            if ordered::<C>() {
                law_uniform_cost_is_cheapest(g, self.goal(), self.start());
                if adding_grows::<C>() && never_negative(g, self.start()) && sums_in_range(
                    g,
                    self.start(),
                ) && routes_agree(g, self.start()) {
                    law_uniform_cost_where_routes_agree(g, self.goal(), self.start());
                }
            }
        }
        let plan = ByCost { step: g };
        explore::<S, GL, C, ByCost<G>>(&self.start_state, &self.is_goal, &plan)
    }

    /// Takes first a waiting state whose parent the heuristic `h` estimated
    /// least; accumulated cost plays no part.
    pub fn greedy_search<C, H>(&self, h: H) -> (found: Option<Rc<S>>) where
        C: Ord + Default,
        H: Fn(&S) -> C,

        requires
            self.well_posed(),
            estimate_ready(h, self.start()),
        ensures
            unshared(found) == outcome(by_estimate(h), self.goal(), self.start()),
            answers(self.goal(), self.start(), unshared(found)),
            accepted(self.goal_fn(), found),
    {
        let plan = ByEstimate { estimate: h };
        explore::<S, GL, C, ByEstimate<H>>(&self.start_state, &self.is_goal, &plan)
    }

    /// Takes first a waiting state for which accumulated cost plus the
    /// estimate of its parent is least.  With an estimate of zero this is
    /// uniform-cost search; the goal returned is a cheapest one unless the
    /// rank at which a state was first discovered stands in the way of a
    /// cheaper walk.
    pub fn a_star_search<C, G, H>(&self, g: G, h: H) -> (found: Option<Rc<S>>) where
        C: Ord + Default + Add<Output = C> + Copy,
        G: Fn(&S, &S::Action) -> C,
        H: Fn(&S) -> C,

        requires
            self.well_posed(),
            sum_ready(g, h, self.start()),
        ensures
            unshared(found) == outcome(by_sum(g, h), self.goal(), self.start()),
            answers(self.goal(), self.start(), unshared(found)),
            accepted(self.goal_fn(), found),
            estimates_nothing::<S, C, H>(h) && zero_is_neutral::<C>() ==> unshared(found) == outcome(
                by_cost(g),
                self.goal(),
                self.start(),
            ),
            ordered::<C>() && adding_grows::<C>() && never_below_zero(h, self.start()) && ranks_in_range(
                g,
                h,
                self.start(),
            ) ==> cheapest_ranked(g, h, self.goal(), self.start(), unshared(found)),
    {
        proof {
            if ordered::<C>() && adding_grows::<C>() && never_below_zero(h, self.start())
                && ranks_in_range(g, h, self.start()) {
                law_a_star_is_cheapest(g, h, self.goal(), self.start());
            }
            if estimates_nothing::<S, C, H>(h) && zero_is_neutral::<C>() {
                law_zero_estimate_is_uniform_cost(g, h, self.goal(), self.start());
            }
        }
        let plan = BySum { step: g, estimate: h };
        explore::<S, GL, (C, C), BySum<G, H>>(&self.start_state, &self.is_goal, &plan)
    }
}

} // verus!
