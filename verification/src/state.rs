//! The capability every searchable domain provides, and the graph it induces.
use std::rc::Rc;
use vstd::prelude::*;

verus! {

/// One configuration of a problem domain.
///
/// The specification functions `actions` and `successor` describe the implicit
/// graph.  The executable methods agree with them, which makes enumeration and
/// transition functions of their arguments.  `valid` says which states are
/// legal; that `is_valid` decides it is asked of the domain by
/// [`validity_decided`], since a state that keeps the provided `is_valid`
/// cannot promise it here.
pub trait State: Sized {
    type Action;

    /// The actions legal from this state, in the order `get_actions` lists them.
    ///
    /// A verified domain says here what they are.  A domain that does not is
    /// taken to have some fixed list for each state.
    open spec fn actions(&self) -> Seq<Self::Action> {
        (choose|listing: spec_fn(Self) -> Seq<Self::Action>| any(listing))(*self)
    }

    /// The state that applying `action` to this state produces.
    ///
    /// A verified domain says here what it is.  A domain that does not is
    /// taken to have some fixed successor for each state and action.
    open spec fn successor(&self, action: &Self::Action) -> Self {
        (choose|step: spec_fn(Self, Self::Action) -> Self| any(step))(*self, *action)
    }

    /// The state is structurally legal.
    ///
    /// A verified domain says here what that means.  For a domain that does
    /// not, a state is legal if `is_valid` says so.
    open spec fn valid(&self) -> bool {
        call_ensures(Self::is_valid, (self,), true)
    }

    /// Enumerates the legal actions; an empty list marks a dead end.
    /// A traversal asks this of legal states only.
    fn get_actions(&self) -> (listed: Vec<&Self::Action>)
        requires
            self.valid(),
        ensures
            named(listed@) == self.actions(),
    ;

    /// Applies one of the legal actions, leaving the receiver untouched.
    /// A traversal asks this of legal states only.
    fn transfer(&self, action: &Self::Action) -> (next: Rc<Self>)
        requires
            self.valid(),
            self.actions().contains(*action),
        ensures
            *next == self.successor(action),
    ;

    /// Structural legality of the state; every state is legal unless a domain says otherwise.
    fn is_valid(&self) -> (ok: bool)
        default_ensures
            ok,
    {
        true
    }
}

/// Holds of everything: a choice restricted by it is a free choice.
pub open spec fn any<T>(choice: T) -> bool {
    true
}

/// The actions that a list of references names.
pub open spec fn named<A>(listed: Seq<&A>) -> Seq<A> {
    Seq::new(listed.len(), |i: int| *listed[i])
}

/// The state passes its own validity check.
pub open spec fn passes<S: State>(s: S) -> bool {
    s.valid()
}

/// The state reached from `start` by applying `acts` one after the other.
pub open spec fn follow<S: State>(start: S, acts: Seq<S::Action>) -> S
    decreases acts.len(),
{
    if acts.len() == 0 {
        start
    } else {
        follow(start, acts.drop_last()).successor(&acts.last())
    }
}

/// Every action of `acts` is legal where it is applied, and is applied to a
/// state that passes its validity check: the traversal can take this walk.
pub open spec fn viable<S: State>(start: S, acts: Seq<S::Action>) -> bool
    decreases acts.len(),
{
    acts.len() == 0 || {
        let from = follow(start, acts.drop_last());
        &&& viable(start, acts.drop_last())
        &&& passes(from)
        &&& from.actions().contains(acts.last())
    }
}

/// The walk `acts` from `start` comes through `s`: where it begins, on its
/// way, or where it ends.
pub open spec fn visits<S: State>(start: S, acts: Seq<S::Action>, s: S) -> bool
    decreases acts.len(),
{
    follow(start, acts) == s || (acts.len() > 0 && visits(start, acts.drop_last(), s))
}

/// The walk `acts` from `start` comes through no state twice.
pub open spec fn simple<S: State>(start: S, acts: Seq<S::Action>) -> bool
    decreases acts.len(),
{
    acts.len() == 0 || (simple(start, acts.drop_last()) && !visits(
        start,
        acts.drop_last(),
        follow(start, acts),
    ))
}

/// `acts` is a viable walk from `start` to `s` that repeats no state and
/// comes through states in `seen` only: a walk by which a traversal that has
/// seen these states can have discovered `s`.
pub open spec fn trail<S: State>(start: S, seen: Set<S>, acts: Seq<S::Action>, s: S) -> bool {
    &&& viable(start, acts)
    &&& simple(start, acts)
    &&& follow(start, acts) == s
    &&& forall|t: S| #[trigger] visits(start, acts, t) ==> seen.contains(t)
}

/// `t` is the end of some viable walk from `start`.
pub open spec fn reachable<S: State>(start: S, t: S) -> bool {
    exists|acts: Seq<S::Action>| viable(start, acts) && #[trigger] follow(start, acts) == t
}

/// All states a traversal from `start` can ever discover.
pub open spec fn reach<S: State>(start: S) -> Set<S> {
    Set::new(|t: S| reachable(start, t))
}

/// On the states reachable from `start` the validity check answers what
/// `valid` says, the same for the same state every time.
pub open spec fn validity_decided<S: State>(start: S) -> bool {
    forall|s: S, ok: bool|
        reach(start).contains(s) && #[trigger] call_ensures(S::is_valid, (&s,), ok) ==> ok == s.valid()
}

/// The start state is reachable by the empty walk.
pub proof fn lemma_start_reachable<S: State>(start: S)
    ensures
        reach(start).contains(start),
{
    let none = Seq::<S::Action>::empty();
    assert(viable(start, none) && follow(start, none) == start);
}

/// A legal action applied to a reachable, valid state leads to a reachable state.
pub proof fn lemma_successor_reachable<S: State>(start: S, s: S, action: S::Action)
    requires
        reach(start).contains(s),
        passes(s),
        s.actions().contains(action),
    ensures
        reach(start).contains(s.successor(&action)),
{
    let acts = choose|acts: Seq<S::Action>| viable(start, acts) && #[trigger] follow(start, acts) == s;
    let longer = acts.push(action);
    assert(longer.drop_last() =~= acts);
    assert(viable(start, longer) && follow(start, longer) == s.successor(&action));
}

/// A viable walk that repeats no state, taken one legal step further from its
/// valid end to a state it has not come through, is such a walk again.
pub proof fn lemma_step<S: State>(start: S, seen: Set<S>, acts: Seq<S::Action>, action: S::Action)
    requires
        viable(start, acts),
        simple(start, acts),
        forall|t: S| #[trigger] visits(start, acts, t) ==> seen.contains(t),
        passes(follow(start, acts)),
        follow(start, acts).actions().contains(action),
        !seen.contains(follow(start, acts).successor(&action)),
    ensures
        acts.push(action).drop_last() == acts,
        viable(start, acts.push(action)),
        simple(start, acts.push(action)),
        follow(start, acts.push(action)) == follow(start, acts).successor(&action),
        forall|t: S| #[trigger]
            visits(start, acts.push(action), t) ==> seen.insert(
                follow(start, acts).successor(&action),
            ).contains(t),
{
    let longer = acts.push(action);
    assert(longer.drop_last() =~= acts);
    let next = follow(start, acts).successor(&action);
    if visits(start, acts, next) {
        assert(seen.contains(next));
    }
    assert forall|t: S| #[trigger] visits(start, longer, t) implies seen.insert(next).contains(t) by {
        if follow(start, longer) != t {
            assert(visits(start, longer.drop_last(), t));
        }
    }
}

/// A finite set that holds the start state, and with each valid state it
/// holds the states its legal actions lead to, holds every reachable state:
/// only finitely many states are reachable.
pub proof fn lemma_reach_confined<S: State>(start: S, space: Set<S>)
    requires
        space.finite(),
        space.contains(start),
        forall|s: S, action: S::Action|
            space.contains(s) && passes(s) && s.actions().contains(action) ==> space.contains(
                #[trigger] s.successor(&action),
            ),
    ensures
        reach(start).subset_of(space),
        reach(start).finite(),
{
    assert forall|t: S| reach(start).contains(t) implies space.contains(t) by {
        let acts = choose|acts: Seq<S::Action>| viable(start, acts) && #[trigger] follow(start, acts) == t;
        lemma_walk_confined(start, space, acts);
    }
    vstd::set_lib::lemma_len_subset(reach(start), space);
}

proof fn lemma_walk_confined<S: State>(start: S, space: Set<S>, acts: Seq<S::Action>)
    requires
        space.contains(start),
        forall|s: S, action: S::Action|
            space.contains(s) && passes(s) && s.actions().contains(action) ==> space.contains(
                #[trigger] s.successor(&action),
            ),
        viable(start, acts),
    ensures
        space.contains(follow(start, acts)),
    decreases acts.len(),
{
    if acts.len() > 0 {
        lemma_walk_confined(start, space, acts.drop_last());
    }
}

} // verus!
