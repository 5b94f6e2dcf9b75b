use vstd::prelude::*;

verus! {

/// Outcome of ticking a behavior.
#[derive(Clone, Copy, Debug, PartialEq, Eq, Structural)]
pub enum Status {
    /// The behavior has not finished yet.
    Running,
    /// The behavior finished and succeeded.
    Success,
    /// The behavior finished and failed.
    Failure,
}

/// A keyboard key, identified by its key code.
#[derive(Clone, Copy, Debug, PartialEq, Eq, Structural)]
pub struct Key {
    pub code: u32,
}

/// A stimulus handed to a behavior by the host on each tick.
#[derive(Clone, Copy, Debug, PartialEq, Eq, Structural)]
pub enum Input {
    /// Time passed: this many units since the previous update.
    Update(u64),
    /// A key was pressed. Key presses take no time.
    KeyPress(Key),
    /// Any other host event. It takes no time either.
    Other,
}

impl Input {
    /// The time that this input carries: the delta of an update, zero otherwise.
    pub open spec fn dt(self) -> u64 {
        match self {
            Input::Update(dt) => dt,
            _ => 0,
        }
    }

    /// The time that this input carries.
    pub fn delta(&self) -> (r: u64)
        ensures
            r == self.dt(),
    {
        match self {
            Input::Update(dt) => *dt,
            _ => 0,
        }
    }
}

} // verus!
