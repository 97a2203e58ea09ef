//! The traversal strategies: what each scores a state with and which waiting
//! state it takes next.
use crate::model::{child, Entry, Order, Rule};
use crate::state::{passes, reach, State};
use vstd::prelude::*;

verus! {

/// What the shared traversal loop asks of a strategy.
pub(crate) trait Strategy<S: State, P> {
    /// The rule the strategy follows.
    spec fn rule(&self) -> Rule<S, P>;

    /// What the strategy needs to hold before a traversal from `start`.
    spec fn ready(&self, start: S) -> bool;

    /// What holds of every entry the strategy queues in a traversal from
    /// `start`, once the states in `seen` have been discovered.
    spec fn fits(&self, start: S, seen: Set<S>, e: Entry<S, P>) -> bool;

    fn order(&self) -> (o: Order)
        ensures
            o == self.rule().order,
    ;

    fn first(&self, start: Ghost<S>) -> (p: P)
        requires
            self.ready(start@),
        ensures
            p == self.rule().first,
            self.fits(start@, set![start@], Entry { state: start@, depth: 0, score: p }),
    ;

    /// The score of a state that `action` leads to from `state` and that is
    /// seen for the first time.
    fn score(
        &self,
        state: &S,
        held: &P,
        action: &S::Action,
        start: Ghost<S>,
        seen: Ghost<Set<S>>,
        depth: Ghost<nat>,
    ) -> (p: P)
        requires
            self.ready(start@),
            reach(start@).contains(*state),
            passes(*state),
            state.actions().contains(*action),
            self.fits(start@, seen@, Entry { state: *state, depth: depth@, score: *held }),
            !seen@.contains(state.successor(action)),
        ensures
            p == (self.rule().score)(*state, *held, *action),
            self.fits(
                start@,
                seen@.insert(state.successor(action)),
                child(self.rule(), Entry { state: *state, depth: depth@, score: *held }, *action),
            ),
    ;

    /// What fits stays fitting as more states are discovered.
    proof fn lemma_fits_on(&self, start: S, seen: Set<S>, more: Set<S>, e: Entry<S, P>)
        requires
            self.fits(start, seen, e),
            seen.subset_of(more),
        ensures
            self.fits(start, more, e),
    ;

    fn before(&self, a: &P, b: &P, start: Ghost<S>) -> (r: bool)
        requires
            self.ready(start@),
        ensures
            r == (self.rule().before)(*a, *b),
    ;
}

/// The rule of an uninformed traversal: no scores, only an order of arrival.
pub open spec fn blind<S: State>(order: Order) -> Rule<S, ()> {
    Rule { order, first: (), score: |s: S, held: (), action: S::Action| (), before: |a: (), b: ()| false }
}

/// A strategy that looks at nothing but the order in which states were discovered.
pub(crate) struct Blind {
    pub order: Order,
}

impl<S: State> Strategy<S, ()> for Blind {
    open spec fn rule(&self) -> Rule<S, ()> {
        blind(self.order)
    }

    open spec fn ready(&self, start: S) -> bool {
        true
    }

    open spec fn fits(&self, start: S, seen: Set<S>, e: Entry<S, ()>) -> bool {
        true
    }

    fn order(&self) -> (o: Order) {
        self.order
    }

    fn first(&self, start: Ghost<S>) -> (p: ()) {
        ()
    }

    fn score(
        &self,
        state: &S,
        held: &(),
        action: &S::Action,
        start: Ghost<S>,
        seen: Ghost<Set<S>>,
        depth: Ghost<nat>,
    ) -> (p: ()) {
        ()
    }

    proof fn lemma_fits_on(&self, start: S, seen: Set<S>, more: Set<S>, e: Entry<S, ()>) {
    }

    fn before(&self, a: &(), b: &(), start: Ghost<S>) -> (r: bool) {
        false
    }
}

} // verus!
