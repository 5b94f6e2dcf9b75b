use vstd::prelude::*;
use crate::status::Key;

verus! {

/// A node of a behavior tree: the static description of a behavior.
pub enum Event<A> {
    /// Waits for the given key to be pressed.
    KeyPressed(Key),
    /// A user-defined atomic action.
    Action(A),
    /// Turns success into failure and failure into success.
    Invert(Box<Event<A>>),
    /// Succeeds once this much update time has accumulated.
    Wait(u64),
    /// Runs the children in order until one succeeds.
    Select(Vec<Event<A>>),
    /// Runs the children in order until one fails.
    Sequence(Vec<Event<A>>),
    /// Repeats the body in a cycle while the condition is running.
    While(Box<Event<A>>, Vec<Event<A>>),
    /// Runs all children side by side until all succeed or one fails.
    WhenAll(Vec<Event<A>>),
}

pub open spec fn max_nat(a: nat, b: nat) -> nat {
    if a >= b { a } else { b }
}

impl<A> Event<A> {
    /// Composite nodes that step through a list of children need at least one child.
    pub open spec fn wf(&self) -> bool
        decreases self,
    {
        match self {
            Event::Invert(e) => e.wf(),
            Event::Select(es) => es@.len() > 0 && forall|j: int| 0 <= j < es@.len() ==> (#[trigger] es@[j]).wf(),
            Event::Sequence(es) => es@.len() > 0 && forall|j: int| 0 <= j < es@.len() ==> (#[trigger] es@[j]).wf(),
            Event::While(c, body) => c.wf() && body@.len() > 0 && forall|j: int| 0 <= j < body@.len() ==> (#[trigger] body@[j]).wf(),
            Event::WhenAll(es) => forall|j: int| 0 <= j < es@.len() ==> (#[trigger] es@[j]).wf(),
            _ => true,
        }
    }

    /// Nesting depth of the tree.
    pub open spec fn depth(&self) -> nat
        decreases self, 0nat,
    {
        match self {
            Event::Invert(e) => e.depth() + 1,
            Event::Select(es) => depth_of_all(es@) + 1,
            Event::Sequence(es) => depth_of_all(es@) + 1,
            Event::While(c, body) => max_nat(c.depth(), depth_of_all(body@)) + 1,
            Event::WhenAll(es) => depth_of_all(es@) + 1,
            _ => 0,
        }
    }
}

impl<A> Event<A> {
    /// Whether every `Select`, `Sequence` and `While` in the tree has at
    /// least one child, as a run of the tree needs.
    pub fn is_valid(&self) -> (r: bool)
        ensures
            r == self.wf(),
        decreases self, 0nat,
    {
        match self {
            Event::Invert(e) => e.is_valid(),
            Event::Select(es) => es.len() > 0 && all_valid(es),
            Event::Sequence(es) => es.len() > 0 && all_valid(es),
            Event::While(cond, body) => cond.is_valid() && body.len() > 0 && all_valid(body),
            Event::WhenAll(es) => all_valid(es),
            _ => true,
        }
    }
}

/// Whether every tree of a list is valid.
fn all_valid<A>(es: &Vec<Event<A>>) -> (r: bool)
    ensures
        r == forall|j: int| 0 <= j < es@.len() ==> (#[trigger] es@[j]).wf(),
    decreases es@, 1nat,
{
    let mut j: usize = 0;
    while j < es.len()
        invariant
            j <= es@.len(),
            forall|k: int| 0 <= k < j ==> (#[trigger] es@[k]).wf(),
        decreases es@.len() - j,
    {
        assert(decreases_to!(es@ => es@[j as int]));
        if !es[j].is_valid() {
            return false;
        }
        j += 1;
    }
    true
}

/// Largest depth among a list of trees.
pub open spec fn depth_of_all<A>(es: Seq<Event<A>>) -> nat
    decreases es, 1nat,
{
    if es.len() == 0 {
        0
    } else {
        max_nat(es[0].depth(), depth_of_all(es.subrange(1, es.len() as int)))
    }
}

} // verus!
