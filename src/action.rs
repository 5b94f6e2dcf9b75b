use vstd::prelude::*;
use crate::status::Status;

verus! {

/// Produces the per-instance state of an action when a run of it begins.
pub trait StartState<S> {
    /// The state a fresh run of this action starts from.
    spec fn initial(&self) -> S;

    /// Creates the state a fresh run of this action starts from.
    fn start_state(&self) -> (r: S)
        ensures
            r == self.initial(),
    ;
}

/// Advances one leaf action by a slice of time. The host supplies it on
/// every tick; composite nodes hand it on unchanged to their children.
pub trait Step<A, S> {
    /// What advancing `action` in `state` by `dt` reports, and the state it
    /// leaves behind.
    spec fn outcome(&self, dt: u64, action: A, state: S) -> (Status, u64, S);

    /// Advances `action` by `dt`, returning its status and the time it did not use.
    fn step(&self, dt: u64, action: &A, state: &mut S) -> (r: (Status, u64))
        ensures
            (r.0, r.1, *final(state)) == self.outcome(dt, *action, *old(state)),
    ;
}

} // verus!
