//! What holds of every traversal, whatever its strategy.
use crate::coherence::{lemma_opening, lemma_run};
use crate::model::{opening, outcome, rounds_needed, Rule};
use crate::state::{passes, reach, State};
use vstd::prelude::*;

verus! {

/// `found` is a reachable state that passes both its validity check and the
/// goal test, or nothing where no reachable state passes both.
pub open spec fn answers<S: State>(goal: spec_fn(S) -> bool, start: S, found: Option<S>) -> bool {
    match found {
        Some(s) => reach(start).contains(s) && passes(s) && goal(s),
        None => forall|t: S| reach(start).contains(t) && passes(t) ==> !#[trigger] goal(t),
    }
}

/// A traversal returns a reachable state that passes both its validity check
/// and the goal test, and it returns nothing only where no reachable state
/// passes both.
pub proof fn law_sound_and_complete<S: State, P>(rule: Rule<S, P>, goal: spec_fn(S) -> bool, start: S)
    requires
        reach(start).finite(),
    ensures
        answers(goal, start, outcome(rule, goal, start)),
{
    lemma_opening(rule, goal, start);
    lemma_run(rule, goal, start, opening(rule, start), rounds_needed(start));
}

/// Two traversals of the same problem by the same strategy return the same
/// state: the result is a function of the strategy, the goal test and the
/// start state.
pub proof fn law_repeatable<S: State, P>(
    rule: Rule<S, P>,
    goal: spec_fn(S) -> bool,
    start: S,
    once: Option<S>,
    again: Option<S>,
)
    requires
        once == outcome(rule, goal, start),
        again == outcome(rule, goal, start),
    ensures
        once == again,
{
}

} // verus!
