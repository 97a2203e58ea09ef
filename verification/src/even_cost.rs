//! With every step at the same cost, uniform-cost search is breadth-first search.
use crate::coherence::{coherent, lemma_advance, lemma_opening};
use crate::least_first::at_most;
use crate::model::{
    child, expand, foremost, opening, outcome, pick, precedes, rounds_needed, run, Entry, Frame, Order,
};
use crate::scoring::{by_cost, price, zero};
use crate::state::{passes, reach, State};
use crate::strategy::blind;
use std::ops::Add;
use vstd::prelude::*;
use vstd::set_lib::lemma_len_subset;
use vstd::std_specs::ops::AddSpec;

verus! {

/// What `n` steps at the cost `unit` add up to.
pub open spec fn pace<C: Default + Add<Output = C>>(unit: C, n: nat) -> C
    decreases n,
{
    if n == 0 {
        zero::<C>()
    } else {
        pace(unit, (n - 1) as nat).add_spec(unit)
    }
}

/// Every step that a traversal from `start` can take costs `unit`.
pub open spec fn flat<S: State, C, G: Fn(&S, &S::Action) -> C>(g: G, start: S, unit: C) -> bool {
    forall|s: S, action: S::Action|
        reach(start).contains(s) && passes(s) && s.actions().contains(action) ==> #[trigger] price(
            g,
            s,
            action,
        ) == unit
}

/// Up to `most` steps, more steps at the cost `unit` do not add up to less.
pub open spec fn steady<C: Ord + Default + Add<Output = C>>(unit: C, most: nat) -> bool {
    forall|m: nat, n: nat|
        m <= n <= most ==> at_most(#[trigger] pace(unit, m), #[trigger] pace(unit, n))
}

/// The two frames hold the same states at the same places and depths, and
/// each entry of the first is scored with what its depth costs.
pub open spec fn in_step<S: State, C: Default + Add<Output = C>>(
    paid: Frame<S, C>,
    plain: Frame<S, ()>,
    unit: C,
) -> bool {
    &&& paid.seen == plain.seen
    &&& paid.open.len() == plain.open.len()
    &&& forall|i: int|
        0 <= i < plain.open.len() ==> (#[trigger] paid.open[i]) == Entry {
            state: plain.open[i].state,
            depth: plain.open[i].depth,
            score: pace(unit, plain.open[i].depth),
        }
}

/// The entries wait in the order of their depths, which span at most two.
pub open spec fn in_file<S: State, P>(frame: Frame<S, P>) -> bool {
    forall|i: int, j: int|
        0 <= i <= j < frame.open.len() ==> (#[trigger] frame.open[i]).depth <= (
        #[trigger] frame.open[j]).depth <= frame.open[i].depth + 1
}

/// Where entries wait in the order of their depths, least-first takes the front.
proof fn lemma_front_first<S: State, C: Ord + Default + Add<Output = C>, G: Fn(&S, &S::Action) -> C>(
    g: G,
    paid: Frame<S, C>,
    plain: Frame<S, ()>,
    unit: C,
    most: nat,
    n: nat,
)
    requires
        in_step(paid, plain, unit),
        in_file(plain),
        steady(unit, most),
        forall|i: int| 0 <= i < plain.open.len() ==> (#[trigger] plain.open[i]).depth <= most,
        0 < n <= plain.open.len(),
    ensures
        foremost(by_cost(g), paid.open, n) == 0,
    decreases n,
{
    if n > 1 {
        lemma_front_first(g, paid, plain, unit, most, (n - 1) as nat);
        let held = paid.open[0];
        let cand = paid.open[n - 1];
        assert(plain.open[0].depth <= plain.open[n - 1].depth);
        assert(at_most(pace(unit, plain.open[0].depth), pace(unit, plain.open[n - 1].depth)));
        assert(!precedes(by_cost::<S, C, G>(g), cand, held));
    }
}

/// Expanding the same entry keeps the two frames in step, and queues the new
/// entries one level below it.
proof fn lemma_expand_in_step<S: State, C: Ord + Default + Add<Output = C>, G: Fn(&S, &S::Action) -> C>(
    g: G,
    unit: C,
    paid: Frame<S, C>,
    plain: Frame<S, ()>,
    parent: Entry<S, ()>,
    k: nat,
)
    requires
        in_step(paid, plain, unit),
        k <= parent.state.actions().len(),
        forall|j: int|
            0 <= j < parent.state.actions().len() ==> price(
                g,
                parent.state,
                #[trigger] parent.state.actions()[j],
            ) == unit,
    ensures
        ({
            let twin = Entry { state: parent.state, depth: parent.depth, score: pace(unit, parent.depth) };
            let f = expand(blind::<S>(Order::OldestFirst), plain, parent, parent.state.actions(), k);
            &&& in_step(expand(by_cost(g), paid, twin, parent.state.actions(), k), f, unit)
            &&& plain.open.len() <= f.open.len()
            &&& forall|i: int| 0 <= i < plain.open.len() ==> #[trigger] f.open[i] == plain.open[i]
            &&& forall|i: int|
                plain.open.len() <= i < f.open.len() ==> (#[trigger] f.open[i]).depth == parent.depth + 1
        }),
    decreases k,
{
    if k > 0 {
        let acts = parent.state.actions();
        let easy = blind::<S>(Order::OldestFirst);
        let twin = Entry { state: parent.state, depth: parent.depth, score: pace(unit, parent.depth) };
        lemma_expand_in_step(g, unit, paid, plain, parent, (k - 1) as nat);
        let pa = expand(by_cost(g), paid, twin, acts, (k - 1) as nat);
        let fa = expand(easy, plain, parent, acts, (k - 1) as nat);
        let pc = child(by_cost(g), twin, acts[k - 1]);
        let fc = child(easy, parent, acts[k - 1]);
        assert(price(g, parent.state, acts[k - 1]) == unit);
        assert(pc == Entry { state: fc.state, depth: fc.depth, score: pace(unit, fc.depth) });
        if !fa.seen.contains(fc.state) {
            let pb = Frame { seen: pa.seen.insert(pc.state), open: pa.open.push(pc) };
            let fb = Frame { seen: fa.seen.insert(fc.state), open: fa.open.push(fc) };
            assert forall|i: int| 0 <= i < fb.open.len() implies (#[trigger] pb.open[i]) == Entry {
                state: fb.open[i].state,
                depth: fb.open[i].depth,
                score: pace(unit, fb.open[i].depth),
            } by {
                if i < fa.open.len() {
                    assert(pb.open[i] == pa.open[i]);
                }
            }
            assert forall|i: int| 0 <= i < plain.open.len() implies #[trigger] fb.open[i] == plain.open[i] by {
                assert(fb.open[i] == fa.open[i]);
            }
            assert forall|i: int| plain.open.len() <= i < fb.open.len() implies (#[trigger] fb.open[i]).depth
                == parent.depth + 1 by {
                if i < fa.open.len() {
                    assert(fb.open[i] == fa.open[i]);
                }
            }
        }
    }
}

proof fn lemma_run_in_step<S: State, C: Ord + Default + Add<Output = C>, G: Fn(&S, &S::Action) -> C>(
    g: G,
    unit: C,
    goal: spec_fn(S) -> bool,
    start: S,
    paid: Frame<S, C>,
    plain: Frame<S, ()>,
    rounds: nat,
)
    requires
        reach(start).finite(),
        flat(g, start, unit),
        steady(unit, reach(start).len()),
        coherent(goal, start, plain),
        in_step(paid, plain, unit),
        in_file(plain),
    ensures
        run(by_cost(g), goal, paid, rounds) == run(blind::<S>(Order::OldestFirst), goal, plain, rounds),
    decreases rounds,
{
    let easy = blind::<S>(Order::OldestFirst);
    if rounds > 0 && plain.open.len() > 0 {
        lemma_len_subset(plain.seen, reach(start));
        lemma_front_first(g, paid, plain, unit, reach(start).len(), plain.open.len());
        lemma_advance(easy, goal, start, plain);
        let taken = plain.open[0];
        let twin = paid.open[0];
        let plain_rest = Frame { seen: plain.seen, open: plain.open.remove(0) };
        let paid_rest = Frame { seen: paid.seen, open: paid.open.remove(0) };
        assert(pick(by_cost(g), paid.open) == 0);
        assert(plain.seen.contains(taken.state));
        assert(in_step(paid_rest, plain_rest, unit)) by {
            assert forall|i: int| 0 <= i < plain_rest.open.len() implies (#[trigger] paid_rest.open[i])
                == Entry {
                state: plain_rest.open[i].state,
                depth: plain_rest.open[i].depth,
                score: pace(unit, plain_rest.open[i].depth),
            } by {
                assert(paid_rest.open[i] == paid.open[i + 1]);
                assert(plain_rest.open[i] == plain.open[i + 1]);
            }
        }
        assert forall|i: int| 0 <= i < plain_rest.open.len() implies #[trigger] plain_rest.open[i]
            == plain.open[i + 1] by {}
        if !(goal(taken.state) && passes(taken.state)) {
            if passes(taken.state) {
                let acts = taken.state.actions();
                assert forall|j: int| 0 <= j < acts.len() implies price(g, taken.state, #[trigger] acts[j])
                    == unit by {
                    assert(acts.contains(acts[j]));
                }
                lemma_expand_in_step(g, unit, paid_rest, plain_rest, taken, acts.len());
                let next = expand(easy, plain_rest, taken, acts, acts.len());
                assert(in_file(next)) by {
                    assert forall|i: int, j: int| 0 <= i <= j < next.open.len() implies (
                    #[trigger] next.open[i]).depth <= (#[trigger] next.open[j]).depth
                        <= next.open[i].depth + 1 by {
                        if j < plain_rest.open.len() {
                            assert(next.open[i] == plain_rest.open[i]);
                            assert(next.open[j] == plain_rest.open[j]);
                            assert(plain.open[i + 1].depth <= plain.open[j + 1].depth);
                        } else if i < plain_rest.open.len() {
                            assert(next.open[i] == plain_rest.open[i]);
                            assert(plain.open[0].depth <= plain.open[i + 1].depth);
                        }
                    }
                }
                lemma_run_in_step(
                    g,
                    unit,
                    goal,
                    start,
                    expand(by_cost(g), paid_rest, twin, acts, acts.len()),
                    next,
                    (rounds - 1) as nat,
                );
            } else {
                assert(in_file(plain_rest)) by {
                    assert forall|i: int, j: int| 0 <= i <= j < plain_rest.open.len() implies (
                    #[trigger] plain_rest.open[i]).depth <= (#[trigger] plain_rest.open[j]).depth
                        <= plain_rest.open[i].depth + 1 by {
                        assert(plain.open[i + 1].depth <= plain.open[j + 1].depth);
                    }
                }
                lemma_run_in_step(g, unit, goal, start, paid_rest, plain_rest, (rounds - 1) as nat);
            }
        }
    }
}

/// Where every step costs the same and more steps do not add up to less,
/// uniform-cost search returns what breadth-first search returns.
pub proof fn law_even_cost_is_breadth_first<
    S: State,
    C: Ord + Default + Add<Output = C>,
    G: Fn(&S, &S::Action) -> C,
>(g: G, unit: C, goal: spec_fn(S) -> bool, start: S)
    requires
        reach(start).finite(),
        flat(g, start, unit),
        steady(unit, reach(start).len()),
    ensures
        outcome(by_cost(g), goal, start) == outcome(blind::<S>(Order::OldestFirst), goal, start),
{
    let easy = blind::<S>(Order::OldestFirst);
    let paid = opening(by_cost::<S, C, G>(g), start);
    let plain = opening(easy, start);
    lemma_opening(easy, goal, start);
    assert(in_step(paid, plain, unit));
    lemma_run_in_step(g, unit, goal, start, paid, plain, rounds_needed(start));
}

} // verus!
