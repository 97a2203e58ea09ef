//! The mathematical model of a traversal: what is discovered, what waits on
//! the frontier, and which state a run of the traversal ends with.
use crate::state::{passes, reach, State};
use vstd::prelude::*;

verus! {

/// Which waiting entry a traversal takes next.
#[derive(Clone, Copy)]
pub enum Order {
    /// The entry that has waited longest (a queue).
    OldestFirst,
    /// The entry discovered last (a stack).
    NewestFirst,
    /// An entry whose score is least; among equal scores one of least depth,
    /// and among those the one that has waited longest.
    LeastFirst,
}

/// What tells one traversal strategy from another.
#[verifier::reject_recursive_types(S)]
#[verifier::reject_recursive_types(P)]
pub ghost struct Rule<S: State, P> {
    pub order: Order,
    /// The score the start state enters the frontier with.
    pub first: P,
    /// The score of the state that `action` leads to from a state with the given score.
    pub score: spec_fn(S, P, S::Action) -> P,
    /// Strict "is better than" on scores.
    pub before: spec_fn(P, P) -> bool,
}

/// A discovered state waiting to be expanded.
pub ghost struct Entry<S, P> {
    pub state: S,
    /// The number of actions by which the state was discovered.
    pub depth: nat,
    pub score: P,
}

/// The bookkeeping of one traversal in progress.
#[verifier::reject_recursive_types(S)]
pub ghost struct Frame<S, P> {
    /// Every state discovered so far.
    pub seen: Set<S>,
    /// The frontier, in order of discovery.
    pub open: Seq<Entry<S, P>>,
}

/// What one round of the traversal leads to.
#[verifier::reject_recursive_types(S)]
pub ghost enum Step<S, P> {
    Found(S),
    Exhausted,
    Next(Frame<S, P>),
}

/// `a` is taken before `b` under a least-first order: by score, then by depth.
pub open spec fn precedes<S: State, P>(rule: Rule<S, P>, a: Entry<S, P>, b: Entry<S, P>) -> bool {
    (rule.before)(a.score, b.score) || (!(rule.before)(b.score, a.score) && a.depth < b.depth)
}

/// The position, among the first `n` waiting entries, of the earliest one that
/// no other of them precedes.
pub open spec fn foremost<S: State, P>(rule: Rule<S, P>, open: Seq<Entry<S, P>>, n: nat) -> int
    decreases n,
{
    if n <= 1 {
        0
    } else {
        let best = foremost(rule, open, (n - 1) as nat);
        if precedes(rule, open[n - 1], open[best]) {
            n - 1
        } else {
            best
        }
    }
}

/// The position of the entry that is taken next.
pub open spec fn pick<S: State, P>(rule: Rule<S, P>, open: Seq<Entry<S, P>>) -> int {
    match rule.order {
        Order::OldestFirst => 0,
        Order::NewestFirst => open.len() - 1,
        Order::LeastFirst => foremost(rule, open, open.len()),
    }
}

/// The entry under which the state that `action` leads to from `parent` is queued.
pub open spec fn child<S: State, P>(rule: Rule<S, P>, parent: Entry<S, P>, action: S::Action) -> Entry<S, P> {
    Entry {
        state: parent.state.successor(&action),
        depth: parent.depth + 1,
        score: (rule.score)(parent.state, parent.score, action),
    }
}

/// The frame after the first `k` of `acts` have been applied to `parent`:
/// a successor seen for the first time is marked and queued, any other is dropped.
pub open spec fn expand<S: State, P>(
    rule: Rule<S, P>,
    frame: Frame<S, P>,
    parent: Entry<S, P>,
    acts: Seq<S::Action>,
    k: nat,
) -> Frame<S, P>
    decreases k,
{
    if k == 0 {
        frame
    } else {
        let sofar = expand(rule, frame, parent, acts, (k - 1) as nat);
        let c = child(rule, parent, acts[k - 1]);
        if sofar.seen.contains(c.state) {
            sofar
        } else {
            Frame { seen: sofar.seen.insert(c.state), open: sofar.open.push(c) }
        }
    }
}

/// One round: take the next entry; stop if it is a valid goal, else expand it if it is valid.
pub open spec fn advance<S: State, P>(rule: Rule<S, P>, goal: spec_fn(S) -> bool, frame: Frame<S, P>) -> Step<S, P> {
    if frame.open.len() == 0 {
        Step::Exhausted
    } else {
        let taken = frame.open[pick(rule, frame.open)];
        let rest = Frame { seen: frame.seen, open: frame.open.remove(pick(rule, frame.open)) };
        if goal(taken.state) && passes(taken.state) {
            Step::Found(taken.state)
        } else if passes(taken.state) {
            Step::Next(expand(rule, rest, taken, taken.state.actions(), taken.state.actions().len()))
        } else {
            Step::Next(rest)
        }
    }
}

/// The result of at most `rounds` rounds from `frame`.
pub open spec fn run<S: State, P>(
    rule: Rule<S, P>,
    goal: spec_fn(S) -> bool,
    frame: Frame<S, P>,
    rounds: nat,
) -> Option<S>
    decreases rounds,
{
    if rounds == 0 {
        None
    } else {
        match advance(rule, goal, frame) {
            Step::Found(s) => Some(s),
            Step::Exhausted => None,
            Step::Next(next) => run(rule, goal, next, (rounds - 1) as nat),
        }
    }
}

/// The states taken from the frontier, in the order in which they are taken,
/// during at most `rounds` rounds from `frame`.
pub open spec fn taken_in<S: State, P>(
    rule: Rule<S, P>,
    goal: spec_fn(S) -> bool,
    frame: Frame<S, P>,
    rounds: nat,
) -> Seq<S>
    decreases rounds,
{
    if rounds == 0 || frame.open.len() == 0 {
        Seq::empty()
    } else {
        let taken = frame.open[pick(rule, frame.open)];
        match advance(rule, goal, frame) {
            Step::Next(next) => seq![taken.state] + taken_in(rule, goal, next, (rounds - 1) as nat),
            _ => seq![taken.state],
        }
    }
}

/// The frame a traversal begins with: the start state is seen and waits alone.
pub open spec fn opening<S: State, P>(rule: Rule<S, P>, start: S) -> Frame<S, P> {
    Frame { seen: set![start], open: seq![Entry { state: start, depth: 0, score: rule.first }] }
}

/// The number of rounds no traversal from `start` exceeds: each round takes a
/// different reachable state.
pub open spec fn rounds_needed<S: State>(start: S) -> nat {
    reach(start).len() + 1
}

/// The state a traversal from `start` returns, if any.
pub open spec fn outcome<S: State, P>(rule: Rule<S, P>, goal: spec_fn(S) -> bool, start: S) -> Option<S> {
    run(rule, goal, opening(rule, start), rounds_needed(start))
}

/// The scores on record after the first `k` of `acts` have been applied to
/// `parent`: a successor seen for the first time goes on record with the
/// score it is queued with.
pub open spec fn note<S: State, P>(
    rule: Rule<S, P>,
    frame: Frame<S, P>,
    book: Map<S, P>,
    parent: Entry<S, P>,
    acts: Seq<S::Action>,
    k: nat,
) -> Map<S, P>
    decreases k,
{
    if k == 0 {
        book
    } else {
        let sofar = expand(rule, frame, parent, acts, (k - 1) as nat);
        let kept = note(rule, frame, book, parent, acts, (k - 1) as nat);
        let c = child(rule, parent, acts[k - 1]);
        if sofar.seen.contains(c.state) {
            kept
        } else {
            kept.insert(c.state, c.score)
        }
    }
}

/// The scores on record after at most `rounds` rounds from `frame`, where
/// `book` holds those on record before.
pub open spec fn noted_in<S: State, P>(
    rule: Rule<S, P>,
    goal: spec_fn(S) -> bool,
    frame: Frame<S, P>,
    book: Map<S, P>,
    rounds: nat,
) -> Map<S, P>
    decreases rounds,
{
    if rounds == 0 {
        book
    } else {
        match advance(rule, goal, frame) {
            Step::Next(next) => {
                let taken = frame.open[pick(rule, frame.open)];
                let rest = Frame { seen: frame.seen, open: frame.open.remove(pick(rule, frame.open)) };
                let more = if passes(taken.state) {
                    note(rule, rest, book, taken, taken.state.actions(), taken.state.actions().len())
                } else {
                    book
                };
                noted_in(rule, goal, next, more, (rounds - 1) as nat)
            },
            _ => book,
        }
    }
}

/// For every state that a traversal from `start` discovers, the score with
/// which it is queued when it is first seen.
pub open spec fn discovery<S: State, P>(rule: Rule<S, P>, goal: spec_fn(S) -> bool, start: S) -> Map<S, P> {
    noted_in(rule, goal, opening(rule, start), Map::empty().insert(start, rule.first), rounds_needed(start))
}

/// The states a traversal from `start` takes from the frontier, in order.
pub open spec fn expansions<S: State, P>(rule: Rule<S, P>, goal: spec_fn(S) -> bool, start: S) -> Seq<S> {
    taken_in(rule, goal, opening(rule, start), rounds_needed(start))
}

} // verus!
