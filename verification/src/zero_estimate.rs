//! With an estimate that is zero everywhere, A* search is uniform-cost search.
use crate::model::{
    child, expand, expansions, foremost, opening, outcome, pick, precedes, rounds_needed, run,
    taken_in, Entry, Frame,
};
use crate::scoring::{by_cost, by_sum, guess, zero};
use crate::state::{passes, State};
use std::ops::Add;
use vstd::prelude::*;
use vstd::std_specs::ops::AddSpec;

verus! {

/// The heuristic estimates every state at zero.
pub open spec fn estimates_nothing<S, C: Default, H: Fn(&S) -> C>(h: H) -> bool {
    forall|s: S| #[trigger] guess::<S, C, H>(h, s) == zero::<C>()
}

/// Adding zero changes nothing.
pub open spec fn zero_is_neutral<C: Default + Add<Output = C>>() -> bool {
    forall|c: C| #[trigger] c.add_spec(zero::<C>()) == c
}

/// The frames hold the same states at the same places, and each entry of the
/// first is ranked by the accumulated cost that scores it in the second.
pub open spec fn mirrors<S, C>(ranked: Frame<S, (C, C)>, plain: Frame<S, C>) -> bool {
    &&& ranked.seen == plain.seen
    &&& ranked.open.len() == plain.open.len()
    &&& forall|i: int|
        0 <= i < plain.open.len() ==> (#[trigger] ranked.open[i]) == Entry {
            state: plain.open[i].state,
            depth: plain.open[i].depth,
            score: (plain.open[i].score, plain.open[i].score),
        }
}

proof fn lemma_same_choice<S: State, C: Ord + Default + Add<Output = C>, G: Fn(&S, &S::Action) -> C, H: Fn(&S) -> C>(
    g: G,
    h: H,
    ranked: Frame<S, (C, C)>,
    plain: Frame<S, C>,
    n: nat,
)
    requires
        mirrors(ranked, plain),
        n <= plain.open.len(),
    ensures
        foremost(by_sum(g, h), ranked.open, n) == foremost(by_cost(g), plain.open, n),
        n > 0 ==> 0 <= foremost(by_cost(g), plain.open, n) < n,
    decreases n,
{
    if n > 1 {
        lemma_same_choice(g, h, ranked, plain, (n - 1) as nat);
        let best = foremost(by_cost(g), plain.open, (n - 1) as nat);
        assert(precedes(by_sum(g, h), ranked.open[n - 1], ranked.open[best]) == precedes(
            by_cost(g),
            plain.open[n - 1],
            plain.open[best],
        ));
    }
}

proof fn lemma_same_expansion<S: State, C: Ord + Default + Add<Output = C>, G: Fn(&S, &S::Action) -> C, H: Fn(&S) -> C>(
    g: G,
    h: H,
    ranked: Frame<S, (C, C)>,
    plain: Frame<S, C>,
    parent: Entry<S, C>,
    acts: Seq<S::Action>,
    k: nat,
)
    requires
        estimates_nothing::<S, C, H>(h),
        zero_is_neutral::<C>(),
        mirrors(ranked, plain),
        k <= acts.len(),
    ensures
        mirrors(
            expand(
                by_sum(g, h),
                ranked,
                Entry { state: parent.state, depth: parent.depth, score: (parent.score, parent.score) },
                acts,
                k,
            ),
            expand(by_cost(g), plain, parent, acts, k),
        ),
    decreases k,
{
    if k > 0 {
        let twin = Entry { state: parent.state, depth: parent.depth, score: (parent.score, parent.score) };
        lemma_same_expansion(g, h, ranked, plain, parent, acts, (k - 1) as nat);
        let ra = expand(by_sum(g, h), ranked, twin, acts, (k - 1) as nat);
        let pa = expand(by_cost(g), plain, parent, acts, (k - 1) as nat);
        let rc = child(by_sum(g, h), twin, acts[k - 1]);
        let pc = child(by_cost(g), parent, acts[k - 1]);
        assert(guess::<S, C, H>(h, parent.state) == zero::<C>());
        assert(pc.score.add_spec(zero::<C>()) == pc.score);
        assert(rc == Entry { state: pc.state, depth: pc.depth, score: (pc.score, pc.score) });
        if !pa.seen.contains(pc.state) {
            let rb = Frame { seen: ra.seen.insert(rc.state), open: ra.open.push(rc) };
            let pb = Frame { seen: pa.seen.insert(pc.state), open: pa.open.push(pc) };
            assert forall|i: int| 0 <= i < pb.open.len() implies (#[trigger] rb.open[i]) == Entry {
                state: pb.open[i].state,
                depth: pb.open[i].depth,
                score: (pb.open[i].score, pb.open[i].score),
            } by {
                if i < pa.open.len() {
                    assert(rb.open[i] == ra.open[i]);
                }
            }
        }
    }
}

proof fn lemma_same_run<S: State, C: Ord + Default + Add<Output = C>, G: Fn(&S, &S::Action) -> C, H: Fn(&S) -> C>(
    g: G,
    h: H,
    goal: spec_fn(S) -> bool,
    ranked: Frame<S, (C, C)>,
    plain: Frame<S, C>,
    rounds: nat,
)
    requires
        estimates_nothing::<S, C, H>(h),
        zero_is_neutral::<C>(),
        mirrors(ranked, plain),
    ensures
        run(by_sum(g, h), goal, ranked, rounds) == run(by_cost(g), goal, plain, rounds),
        taken_in(by_sum(g, h), goal, ranked, rounds) == taken_in(by_cost(g), goal, plain, rounds),
    decreases rounds,
{
    if rounds > 0 && plain.open.len() > 0 {
        lemma_same_choice(g, h, ranked, plain, plain.open.len());
        let at = pick(by_cost(g), plain.open);
        assert(pick(by_sum(g, h), ranked.open) == at);
        let taken = plain.open[at];
        let twin = ranked.open[at];
        let plain_rest = Frame { seen: plain.seen, open: plain.open.remove(at) };
        let ranked_rest = Frame { seen: ranked.seen, open: ranked.open.remove(at) };
        assert(mirrors(ranked_rest, plain_rest)) by {
            assert forall|i: int| 0 <= i < plain_rest.open.len() implies (#[trigger] ranked_rest.open[i])
                == Entry {
                state: plain_rest.open[i].state,
                depth: plain_rest.open[i].depth,
                score: (plain_rest.open[i].score, plain_rest.open[i].score),
            } by {
                let j = if i < at { i } else { i + 1 };
                assert(ranked_rest.open[i] == ranked.open[j]);
                assert(plain_rest.open[i] == plain.open[j]);
            }
        }
        if !(goal(taken.state) && passes(taken.state)) {
            if passes(taken.state) {
                let acts = taken.state.actions();
                lemma_same_expansion(g, h, ranked_rest, plain_rest, taken, acts, acts.len());
                lemma_same_run(
                    g,
                    h,
                    goal,
                    expand(by_sum(g, h), ranked_rest, twin, acts, acts.len()),
                    expand(by_cost(g), plain_rest, taken, acts, acts.len()),
                    (rounds - 1) as nat,
                );
            } else {
                lemma_same_run(g, h, goal, ranked_rest, plain_rest, (rounds - 1) as nat);
            }
        }
    }
}

/// With an estimate that is zero everywhere, A* search takes the same states
/// in the same order as uniform-cost search and returns the same state.
pub proof fn law_zero_estimate_is_uniform_cost<
    S: State,
    C: Ord + Default + Add<Output = C>,
    G: Fn(&S, &S::Action) -> C,
    H: Fn(&S) -> C,
>(g: G, h: H, goal: spec_fn(S) -> bool, start: S)
    requires
        estimates_nothing::<S, C, H>(h),
        zero_is_neutral::<C>(),
    ensures
        outcome(by_sum(g, h), goal, start) == outcome(by_cost(g), goal, start),
        expansions(by_sum(g, h), goal, start) == expansions(by_cost(g), goal, start),
{
    let ranked = opening(by_sum(g, h), start);
    let plain = opening(by_cost(g), start);
    assert(mirrors(ranked, plain));
    lemma_same_run(g, h, goal, ranked, plain, rounds_needed(start));
}

} // verus!
