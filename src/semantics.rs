use vstd::prelude::*;
use crate::action::{StartState, Step};
use crate::event::{depth_of_all, max_nat, Event};
use crate::status::{Input, Status};

verus! {

/// The mathematical value of a cursor: where in a behavior a run is.
///
/// Each variant mirrors a variant of the cursor; child lists are held as
/// sequences of trees and positions as natural numbers.
pub enum CursorModel<A, S> {
    /// The key waited for.
    KeyPressed(crate::status::Key),
    /// The action and its per-instance state.
    State(A, S),
    /// The inverted cursor.
    Invert(Box<CursorModel<A, S>>),
    /// Target time and time accumulated so far.
    Wait(u64, u64),
    /// Children, position of the current child, and the current child.
    Select(Seq<Event<A>>, int, Box<CursorModel<A, S>>),
    /// Children, position of the current child, and the current child.
    Sequence(Seq<Event<A>>, int, Box<CursorModel<A, S>>),
    /// Condition, body, position in the body, and the current body child.
    While(Box<CursorModel<A, S>>, Seq<Event<A>>, int, Box<CursorModel<A, S>>),
    /// One slot per child; a finished child leaves its slot empty.
    WhenAll(Seq<Option<CursorModel<A, S>>>),
}

/// Swaps success and failure.
pub open spec fn inverted(st: Status) -> Status {
    match st {
        Status::Success => Status::Failure,
        Status::Failure => Status::Success,
        Status::Running => Status::Running,
    }
}

/// The input the next sibling sees after a child finished with `leftover`:
/// the leftover time for an update, the tick's own input otherwise.
pub open spec fn passed_on(orig: Input, leftover: u64) -> Input {
    match orig {
        Input::Update(_) => Input::Update(leftover),
        _ => orig,
    }
}

impl<A, S> CursorModel<A, S> {
    /// The invariants every cursor keeps between ticks.
    pub open spec fn wf(self) -> bool
        decreases self,
    {
        match self {
            CursorModel::KeyPressed(_) => true,
            CursorModel::State(_, _) => true,
            CursorModel::Invert(c) => c.wf(),
            CursorModel::Wait(target, elapsed) => elapsed <= target,
            CursorModel::Select(es, i, c) => {
                &&& 0 < es.len()
                &&& 0 <= i <= es.len()
                &&& forall|j: int| 0 <= j < es.len() ==> (#[trigger] es[j]).wf()
                &&& c.wf()
            },
            CursorModel::Sequence(es, i, c) => {
                &&& 0 < es.len()
                &&& 0 <= i <= es.len()
                &&& forall|j: int| 0 <= j < es.len() ==> (#[trigger] es[j]).wf()
                &&& c.wf()
            },
            CursorModel::While(cond, body, i, c) => {
                &&& cond.wf()
                &&& 0 <= i < body.len()
                &&& forall|j: int| 0 <= j < body.len() ==> (#[trigger] body[j]).wf()
                &&& c.wf()
            },
            CursorModel::WhenAll(slots) => forall|k: int|
                0 <= k < slots.len() ==> match #[trigger] slots[k] {
                    Some(c) => c.wf(),
                    None => true,
                },
        }
    }

    /// A bound on how deeply cursors nest below this one, counting the
    /// children that may still be spawned.
    pub open spec fn rank(self) -> nat
        decreases self, 0nat,
    {
        match self {
            CursorModel::Invert(c) => c.rank() + 1,
            CursorModel::Select(es, _, c) => max_nat(c.rank(), depth_of_all(es)) + 1,
            CursorModel::Sequence(es, _, c) => max_nat(c.rank(), depth_of_all(es)) + 1,
            CursorModel::While(cond, body, _, c) => max_nat(
                cond.rank(),
                max_nat(c.rank(), depth_of_all(body)),
            ) + 1,
            CursorModel::WhenAll(slots) => rank_of_slots(slots) + 1,
            _ => 0,
        }
    }
}

/// Largest rank among the occupied slots.
pub open spec fn rank_of_slots<A, S>(slots: Seq<Option<CursorModel<A, S>>>) -> nat
    decreases slots, 1nat,
{
    if slots.len() == 0 {
        0
    } else {
        let first: nat = match slots[0] {
            Some(c) => c.rank(),
            None => 0,
        };
        max_nat(first, rank_of_slots(slots.subrange(1, slots.len() as int)))
    }
}

/// The cursor a run of `e` starts from.
pub open spec fn spawn<A: StartState<S>, S>(e: Event<A>) -> CursorModel<A, S>
    decreases e, 0nat,
{
    match e {
        Event::KeyPressed(k) => CursorModel::KeyPressed(k),
        Event::Action(a) => CursorModel::State(a, a.initial()),
        Event::Invert(inner) => CursorModel::Invert(Box::new(spawn(*inner))),
        Event::Wait(d) => CursorModel::Wait(d, 0),
        Event::Select(es) => CursorModel::Select(es@, 0, Box::new(spawn_at(es@, 0))),
        Event::Sequence(es) => CursorModel::Sequence(es@, 0, Box::new(spawn_at(es@, 0))),
        Event::While(cond, body) => CursorModel::While(
            Box::new(spawn(*cond)),
            body@,
            0,
            Box::new(spawn_at(body@, 0)),
        ),
        Event::WhenAll(es) => CursorModel::WhenAll(spawn_all(es@)),
    }
}

/// The cursor a run of the `j`-th tree of `es` starts from.
pub open spec fn spawn_at<A: StartState<S>, S>(es: Seq<Event<A>>, j: int) -> CursorModel<A, S>
    decreases es, 1nat,
{
    if 0 <= j < es.len() {
        spawn(es[j])
    } else {
        CursorModel::Wait(0, 0)
    }
}

/// One occupied slot per tree of `es`, each with a fresh cursor.
pub open spec fn spawn_all<A: StartState<S>, S>(es: Seq<Event<A>>) -> Seq<Option<CursorModel<A, S>>>
    decreases es, 1nat,
{
    if es.len() == 0 {
        Seq::empty()
    } else {
        seq![Some(spawn::<A, S>(es[0]))] + spawn_all(es.subrange(1, es.len() as int))
    }
}

/// One tick: the cursor after the tick, the status reported, and the
/// time left over.
pub open spec fn tick<A: StartState<S>, S, F: Step<A, S>>(
    c: CursorModel<A, S>,
    input: Input,
    f: F,
) -> (CursorModel<A, S>, Status, u64)
    decreases c.rank(), 0nat, 0nat, 0int,
{
    match c {
        CursorModel::KeyPressed(k) => if input == Input::KeyPress(k) {
            (c, Status::Success, 0)
        } else {
            (c, Status::Running, 0)
        },
        CursorModel::State(a, s) => match input {
            Input::Update(dt) => {
                let (st, d, s2) = f.outcome(dt, a, s);
                (CursorModel::State(a, s2), st, d)
            },
            _ => (c, Status::Running, 0),
        },
        CursorModel::Invert(inner) => {
            let (n, st, d) = tick(*inner, input, f);
            (CursorModel::Invert(Box::new(n)), inverted(st), d)
        },
        CursorModel::Wait(target, elapsed) => match input {
            Input::Update(dt) => if elapsed + dt >= target {
                (CursorModel::Wait(target, target), Status::Success, (elapsed + dt - target) as u64)
            } else {
                (CursorModel::Wait(target, (elapsed + dt) as u64), Status::Running, 0)
            },
            _ => (c, Status::Running, 0),
        },
        CursorModel::Select(es, i, child) => select_from(es, i, *child, input, input, f),
        CursorModel::Sequence(es, i, child) => sequence_from(es, i, *child, input, input, f),
        CursorModel::While(cond, body, i, child) => {
            let (cond2, st, d) = tick(*cond, input, f);
            if st != Status::Running {
                (CursorModel::While(Box::new(cond2), body, i, child), st, d)
            } else {
                while_from(cond2, body, i, *child, input, input, f, true, input.dt())
            }
        },
        CursorModel::WhenAll(slots) => when_all_from(Seq::empty(), slots, input, f, None),
    }
}

/// The rest of a `Select` tick from child `i` on, which sees `cur`; `orig`
/// is the tick's own input.
pub open spec fn select_from<A: StartState<S>, S, F: Step<A, S>>(
    es: Seq<Event<A>>,
    i: int,
    child: CursorModel<A, S>,
    cur: Input,
    orig: Input,
    f: F,
) -> (CursorModel<A, S>, Status, u64)
    decreases max_nat(child.rank(), depth_of_all(es)), 0nat, 0nat, es.len() - i + 1,
{
    if !(0 <= i < es.len()) {
        (CursorModel::Select(es, i, Box::new(child)), Status::Running, 0)
    } else {
        let (c2, st, d) = tick(child, cur, f);
        match st {
            Status::Success => (CursorModel::Select(es, i, Box::new(c2)), Status::Success, d),
            Status::Running => (CursorModel::Select(es, i, Box::new(c2)), Status::Running, 0),
            Status::Failure => {
                let next = passed_on(orig, d);
                if i + 1 >= es.len() {
                    (CursorModel::Select(es, i + 1, Box::new(c2)), Status::Failure, next.dt())
                } else {
                    proof {
                        lemma_spawn_rank::<A, S>(es[i + 1]);
                        lemma_depth_of_all(es, i + 1);
                    }
                    select_from(es, i + 1, spawn(es[i + 1]), next, orig, f)
                }
            },
        }
    }
}

/// The rest of a `Sequence` tick from child `i` on, which sees `cur`; `orig`
/// is the tick's own input.
pub open spec fn sequence_from<A: StartState<S>, S, F: Step<A, S>>(
    es: Seq<Event<A>>,
    i: int,
    child: CursorModel<A, S>,
    cur: Input,
    orig: Input,
    f: F,
) -> (CursorModel<A, S>, Status, u64)
    decreases max_nat(child.rank(), depth_of_all(es)), 0nat, 0nat, es.len() - i + 1,
{
    if !(0 <= i < es.len()) {
        (CursorModel::Sequence(es, i, Box::new(child)), Status::Running, 0)
    } else {
        let (c2, st, d) = tick(child, cur, f);
        match st {
            Status::Failure => (CursorModel::Sequence(es, i, Box::new(c2)), Status::Failure, d),
            Status::Running => (CursorModel::Sequence(es, i, Box::new(c2)), Status::Running, 0),
            Status::Success => if !(orig is Update) {
                // The child consumed an instantaneous input: the next
                // child does not see it, and the position stays.
                if i + 1 == es.len() {
                    (CursorModel::Sequence(es, i, Box::new(c2)), Status::Success, d)
                } else {
                    (CursorModel::Sequence(es, i, Box::new(c2)), Status::Running, 0)
                }
            } else if i + 1 >= es.len() {
                (CursorModel::Sequence(es, i + 1, Box::new(c2)), Status::Success, d)
            } else {
                proof {
                    lemma_spawn_rank::<A, S>(es[i + 1]);
                    lemma_depth_of_all(es, i + 1);
                }
                sequence_from(es, i + 1, spawn(es[i + 1]), Input::Update(d), orig, f)
            },
        }
    }
}

/// The rest of a `While` tick from body child `i` on, which sees `cur`.
///
/// Children that succeed on an update hand their leftover time on, and the
/// body starts over after its last child. A lap over the whole body that
/// started fresh and ended with no less time than it began with would be
/// repeated identically forever, so the tick stops there, still running.
/// `first_lap` tells whether the current lap began mid-body; `lap_dt` is
/// the time at the start of the current fresh lap.
pub open spec fn while_from<A: StartState<S>, S, F: Step<A, S>>(
    cond: CursorModel<A, S>,
    body: Seq<Event<A>>,
    i: int,
    child: CursorModel<A, S>,
    cur: Input,
    orig: Input,
    f: F,
    first_lap: bool,
    lap_dt: u64,
) -> (CursorModel<A, S>, Status, u64)
    decreases
        max_nat(child.rank(), depth_of_all(body)),
        if first_lap { 1nat } else { 0nat },
        lap_dt as nat,
        body.len() - i + 1,
{
    if !(0 <= i < body.len()) {
        (CursorModel::While(Box::new(cond), body, i, Box::new(child)), Status::Running, 0)
    } else {
        let (c2, st, d) = tick(child, cur, f);
        match st {
            Status::Failure => (
                CursorModel::While(Box::new(cond), body, i, Box::new(c2)),
                Status::Failure,
                d,
            ),
            Status::Running => (
                CursorModel::While(Box::new(cond), body, i, Box::new(c2)),
                Status::Running,
                0,
            ),
            Status::Success => if !(orig is Update) {
                (CursorModel::While(Box::new(cond), body, i, Box::new(c2)), Status::Running, 0)
            } else if i + 1 < body.len() {
                proof {
                    lemma_spawn_rank::<A, S>(body[i + 1]);
                    lemma_depth_of_all(body, i + 1);
                }
                while_from(cond, body, i + 1, spawn(body[i + 1]), Input::Update(d), orig, f, first_lap, lap_dt)
            } else if first_lap || d < lap_dt {
                proof {
                    lemma_spawn_rank::<A, S>(body[0]);
                    lemma_depth_of_all(body, 0);
                }
                while_from(cond, body, 0, spawn(body[0]), Input::Update(d), orig, f, false, d)
            } else {
                (
                    CursorModel::While(Box::new(cond), body, 0, Box::new(spawn(body[0]))),
                    Status::Running,
                    0,
                )
            },
        }
    }
}

/// The rest of a `WhenAll` tick: `done` holds the slots already ticked,
/// `rest` those still to tick, and `best` the least leftover time among the
/// children that succeeded so far.
///
/// All children see the same input. The first failure ends the tick. When
/// every slot is empty afterwards the tick succeeds with the least leftover
/// time of this tick's successes; with no child at all, or none that
/// finished on this tick, nothing was used and the input's whole time is
/// left over.
pub open spec fn when_all_from<A: StartState<S>, S, F: Step<A, S>>(
    done: Seq<Option<CursorModel<A, S>>>,
    rest: Seq<Option<CursorModel<A, S>>>,
    input: Input,
    f: F,
    best: Option<u64>,
) -> (CursorModel<A, S>, Status, u64)
    decreases rank_of_slots(rest), 0nat, 0nat, rest.len(),
{
    if rest.len() == 0 {
        if done.len() == 0 {
            (CursorModel::WhenAll(done), Status::Success, input.dt())
        } else if forall|k: int| 0 <= k < done.len() ==> #[trigger] done[k] is None {
            let leftover: u64 = match best {
                Some(b) => b,
                None => input.dt(),
            };
            (CursorModel::WhenAll(done), Status::Success, leftover)
        } else {
            (CursorModel::WhenAll(done), Status::Running, 0)
        }
    } else {
        let tail = rest.subrange(1, rest.len() as int);
        match rest[0] {
            None => when_all_from(done.push(None), tail, input, f, best),
            Some(c) => {
                let (c2, st, d) = tick(c, input, f);
                match st {
                    Status::Running => when_all_from(done.push(Some(c2)), tail, input, f, best),
                    Status::Failure => (
                        CursorModel::WhenAll(done.push(Some(c2)) + tail),
                        Status::Failure,
                        d,
                    ),
                    Status::Success => {
                        let b: u64 = match best {
                            Some(b) => if b <= d { b } else { d },
                            None => d,
                        };
                        when_all_from(done.push(None), tail, input, f, Some(b))
                    },
                }
            },
        }
    }
}

/// `spawn_all` gives one slot per tree, holding that tree's fresh cursor.
pub proof fn lemma_spawn_all_index<A: StartState<S>, S>(es: Seq<Event<A>>)
    ensures
        spawn_all::<A, S>(es).len() == es.len(),
        forall|k: int| 0 <= k < es.len() ==> #[trigger] spawn_all::<A, S>(es)[k] == Some(spawn::<A, S>(es[k])),
    decreases es.len(),
{
    if es.len() > 0 {
        let tail = es.subrange(1, es.len() as int);
        lemma_spawn_all_index::<A, S>(tail);
        assert forall|k: int| 0 <= k < es.len() implies #[trigger] spawn_all::<A, S>(es)[k] == Some(spawn::<A, S>(es[k])) by {
            if k > 0 {
                assert(tail[k - 1] == es[k]);
            }
        }
    }
}

/// A fresh cursor of a well-formed tree keeps the cursor invariants.
pub proof fn lemma_spawn_wf<A: StartState<S>, S>(e: Event<A>)
    requires
        e.wf(),
    ensures
        spawn::<A, S>(e).wf(),
    decreases e,
{
    match e {
        Event::Invert(inner) => lemma_spawn_wf::<A, S>(*inner),
        Event::Select(es) => {
            assert(decreases_to!(e => es@[0])) by {
                assert(decreases_to!(e => e->Select_0));
            }
            lemma_spawn_wf::<A, S>(es@[0]);
            assert(spawn_at::<A, S>(es@, 0) == spawn::<A, S>(es@[0]));
        },
        Event::Sequence(es) => {
            assert(decreases_to!(e => es@[0])) by {
                assert(decreases_to!(e => e->Sequence_0));
            }
            lemma_spawn_wf::<A, S>(es@[0]);
            assert(spawn_at::<A, S>(es@, 0) == spawn::<A, S>(es@[0]));
        },
        Event::While(cond, body) => {
            lemma_spawn_wf::<A, S>(*cond);
            assert(decreases_to!(e => body@[0])) by {
                assert(decreases_to!(e => e->While_1));
            }
            lemma_spawn_wf::<A, S>(body@[0]);
            assert(spawn_at::<A, S>(body@, 0) == spawn::<A, S>(body@[0]));
        },
        Event::WhenAll(es) => {
            lemma_spawn_all_index::<A, S>(es@);
            assert forall|k: int| 0 <= k < es@.len() implies (match #[trigger] spawn_all::<A, S>(es@)[k] {
                Some(c) => c.wf(),
                None => true,
            }) by {
                assert(decreases_to!(e => es@[k])) by {
                    assert(decreases_to!(e => e->WhenAll_0));
                }
                lemma_spawn_wf::<A, S>(es@[k]);
            }
        },
        _ => {},
    }
}

/// Each occupied slot is at most as deep as the deepest of them.
pub proof fn lemma_rank_of_slots<A, S>(slots: Seq<Option<CursorModel<A, S>>>, k: int)
    requires
        0 <= k < slots.len(),
        slots[k] is Some,
    ensures
        slots[k]->Some_0.rank() <= rank_of_slots(slots),
    decreases slots.len(),
{
    if k > 0 {
        let tail = slots.subrange(1, slots.len() as int);
        lemma_rank_of_slots(tail, k - 1);
        assert(tail[k - 1] == slots[k]);
    }
}

/// Every tree of a list is at most as deep as the deepest of them.
pub proof fn lemma_depth_of_all<A>(es: Seq<Event<A>>, j: int)
    requires
        0 <= j < es.len(),
    ensures
        es[j].depth() <= depth_of_all(es),
    decreases es.len(),
{
    if j > 0 {
        let tail = es.subrange(1, es.len() as int);
        lemma_depth_of_all(tail, j - 1);
        assert(tail[j - 1] == es[j]);
    }
}

/// A fresh cursor is no deeper than its tree.
pub proof fn lemma_spawn_rank<A: StartState<S>, S>(e: Event<A>)
    ensures
        spawn::<A, S>(e).rank() <= e.depth(),
    decreases e, 0nat,
{
    match e {
        Event::Invert(inner) => lemma_spawn_rank::<A, S>(*inner),
        Event::Select(es) => lemma_spawn_at_rank::<A, S>(es@, 0),
        Event::Sequence(es) => lemma_spawn_at_rank::<A, S>(es@, 0),
        Event::While(cond, body) => {
            lemma_spawn_rank::<A, S>(*cond);
            lemma_spawn_at_rank::<A, S>(body@, 0);
        },
        Event::WhenAll(es) => lemma_spawn_all_rank::<A, S>(es@),
        _ => {},
    }
}

proof fn lemma_spawn_at_rank<A: StartState<S>, S>(es: Seq<Event<A>>, j: int)
    ensures
        spawn_at::<A, S>(es, j).rank() <= depth_of_all(es),
    decreases es, 1nat,
{
    if 0 <= j < es.len() {
        lemma_spawn_rank::<A, S>(es[j]);
        lemma_depth_of_all(es, j);
    }
}

proof fn lemma_spawn_all_rank<A: StartState<S>, S>(es: Seq<Event<A>>)
    ensures
        rank_of_slots(spawn_all::<A, S>(es)) <= depth_of_all(es),
    decreases es, 1nat,
{
    if es.len() > 0 {
        let tail = es.subrange(1, es.len() as int);
        let s = spawn_all::<A, S>(es);
        lemma_spawn_rank::<A, S>(es[0]);
        lemma_spawn_all_rank::<A, S>(tail);
        assert(s[0] == Some(spawn::<A, S>(es[0])));
        assert(s.subrange(1, s.len() as int) =~= spawn_all::<A, S>(tail));
    }
}

} // verus!
