//! The frontier as it is held at run time, and the choice of the node to take next.
use crate::model::{foremost, pick, precedes, Entry, Order};
use crate::state::State;
use crate::strategy::Strategy;
use std::collections::VecDeque;
use std::rc::Rc;
use vstd::prelude::*;

verus! {

/// A discovered state waiting on the frontier.
pub(crate) struct Node<S, P> {
    pub state: Rc<S>,
    pub depth: usize,
    pub score: P,
}

impl<S, P> Node<S, P> {
    /// The entry of the model that this node stands for.
    pub(crate) open spec fn entry(self) -> Entry<S, P> {
        Entry { state: *self.state, depth: self.depth as nat, score: self.score }
    }
}

/// The entries that a queue of nodes stands for.
pub(crate) open spec fn entries<S, P>(queue: Seq<Node<S, P>>) -> Seq<Entry<S, P>> {
    Seq::new(queue.len(), |i: int| queue[i].entry())
}

/// The position of the node that the strategy takes next.
pub(crate) fn select<S: State, P, K: Strategy<S, P>>(queue: &VecDeque<Node<S, P>>, plan: &K, start: Ghost<S>) -> (at:
    usize)
    requires
        queue@.len() > 0,
        plan.ready(start@),
    ensures
        at == pick(plan.rule(), entries(queue@)),
        at < queue@.len(),
{
    let ghost rule = plan.rule();
    let ghost open = entries(queue@);
    match plan.order() {
        Order::OldestFirst => 0,
        Order::NewestFirst => queue.len() - 1,
        Order::LeastFirst => {
            let mut best: usize = 0;
            let mut j: usize = 1;
            while j < queue.len()
                invariant
                    1 <= j <= queue@.len(),
                    best < j,
                    best == foremost(rule, open, j as nat),
                    rule == plan.rule(),
                    open == entries(queue@),
                    plan.ready(start@),
                decreases queue@.len() - j,
            {
                let cand = &queue[j];
                let held = &queue[best];
                let better = if plan.before(&cand.score, &held.score, start) {
                    true
                } else if plan.before(&held.score, &cand.score, start) {
                    false
                } else {
                    cand.depth < held.depth
                };
                assert(better == precedes(rule, open[j as int], open[best as int]));
                if better {
                    best = j;
                }
                j = j + 1;
            }
            best
        },
    }
}

} // verus!
