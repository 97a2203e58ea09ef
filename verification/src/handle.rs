//! Shared handles to states.
use std::rc::Rc;
use vstd::prelude::*;

verus! {

/// A second handle to the state that `handle` points to.
///
/// Wraps `Rc::clone`, which makes another pointer to the same allocation: the
/// value behind the new handle is the value behind the old one.
#[verifier::external_body]
pub(crate) fn share<T>(handle: &Rc<T>) -> (copy: Rc<T>)
    ensures
        copy == *handle,
{
    Rc::clone(handle)
}

/// The state behind a handle.
pub open spec fn behind<S>(handle: &Rc<S>) -> S {
    **handle
}

/// The state behind an optional handle.
pub open spec fn unshared<S>(found: Option<Rc<S>>) -> Option<S> {
    match found {
        Some(handle) => Some(*handle),
        None => None,
    }
}

/// The states behind a set of handles.
pub open spec fn states_of<S>(held: Set<Rc<S>>) -> Set<S> {
    held.map(|handle: Rc<S>| *handle)
}

} // verus!
