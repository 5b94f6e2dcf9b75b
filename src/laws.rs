use vstd::prelude::*;
use crate::action::{StartState, Step};
use crate::event::{depth_of_all, max_nat, Event};
use crate::semantics::{
    inverted, lemma_depth_of_all, lemma_spawn_rank, lemma_spawn_wf, passed_on, select_from,
    sequence_from, spawn, spawn_at, tick, when_all_from, while_from, CursorModel,
};
use crate::status::{Input, Status};

verus! {

/// The statuses and leftover times that a cursor reports on a series of inputs.
pub open spec fn trace<A: StartState<S>, S, F: Step<A, S>>(
    c: CursorModel<A, S>,
    inputs: Seq<Input>,
    f: F,
) -> Seq<(Status, u64)>
    decreases inputs.len(),
{
    if inputs.len() == 0 {
        Seq::empty()
    } else {
        let (next, st, d) = tick(c, inputs[0], f);
        seq![(st, d)] + trace(next, inputs.subrange(1, inputs.len() as int), f)
    }
}

/// An action cursor hands an update to the step function and reports
/// exactly what it returns, keeping the state it leaves behind.
pub proof fn lemma_leaf_propagation<A: StartState<S>, S, F: Step<A, S>>(a: A, s: S, dt: u64, f: F)
    ensures
        tick(CursorModel::State(a, s), Input::Update(dt), f) == (
            CursorModel::State(a, f.outcome(dt, a, s).2),
            f.outcome(dt, a, s).0,
            f.outcome(dt, a, s).1,
        ),
{
}

/// Inverting twice changes nothing that can be observed: on every series
/// of inputs a doubly inverted cursor reports what the cursor itself reports.
pub proof fn lemma_invert_involution<A: StartState<S>, S, F: Step<A, S>>(
    c: CursorModel<A, S>,
    inputs: Seq<Input>,
    f: F,
)
    ensures
        trace(CursorModel::Invert(Box::new(CursorModel::Invert(Box::new(c)))), inputs, f)
            == trace(c, inputs, f),
    decreases inputs.len(),
{
    if inputs.len() > 0 {
        let inner = CursorModel::Invert(Box::new(c));
        let (n, st, d) = tick(c, inputs[0], f);
        assert(tick(inner, inputs[0], f) == (CursorModel::Invert(Box::new(n)), inverted(st), d));
        assert(inverted(inverted(st)) == st);
        lemma_invert_involution(n, inputs.subrange(1, inputs.len() as int), f);
    }
}

/// A run of a doubly inverted tree starts from the doubly inverted cursor
/// of the tree.
pub proof fn lemma_spawn_double_invert<A: StartState<S>, S>(e: Event<A>)
    ensures
        spawn::<A, S>(Event::Invert(Box::new(Event::Invert(Box::new(e)))))
            == CursorModel::Invert(Box::new(CursorModel::Invert(Box::new(spawn::<A, S>(e))))),
{
    let inner = Event::Invert(Box::new(e));
    assert(spawn::<A, S>(inner) == CursorModel::Invert(Box::new(spawn::<A, S>(e))));
}

/// `WhenAll` with no children succeeds at once: with all of an update's
/// time left, or with none for an instantaneous input.
pub proof fn lemma_when_all_vacuous<A: StartState<S>, S, F: Step<A, S>>(
    es: Vec<Event<A>>,
    input: Input,
    f: F,
)
    requires
        es@.len() == 0,
    ensures
        tick(spawn::<A, S>(Event::WhenAll(es)), input, f).1 == Status::Success,
        tick(spawn::<A, S>(Event::WhenAll(es)), input, f).2 == input.dt(),
{
    let none: Seq<Option<CursorModel<A, S>>> = Seq::empty();
    assert(crate::semantics::spawn_all::<A, S>(es@) =~= none);
    assert(spawn::<A, S>(Event::WhenAll(es)) == CursorModel::WhenAll(none));
    assert(tick(CursorModel::WhenAll(none), input, f) == when_all_from(none, none, input, f, None));
}

/// On an instantaneous input a `Sequence` ticks its current child alone
/// and keeps its position: the next child never sees that input.
pub proof fn lemma_sequence_instant_input<A: StartState<S>, S, F: Step<A, S>>(
    es: Seq<Event<A>>,
    i: int,
    child: CursorModel<A, S>,
    input: Input,
    f: F,
)
    requires
        0 <= i < es.len(),
        !(input is Update),
    ensures
        ({
            let (c2, st, d) = tick(child, input, f);
            let (n, st_all, d_all) = tick(CursorModel::Sequence(es, i, Box::new(child)), input, f);
            &&& n == CursorModel::Sequence(es, i, Box::new(c2))
            &&& st_all == (if st == Status::Success && i + 1 < es.len() { Status::Running } else { st })
            &&& d_all == (if st_all == Status::Running { 0 } else { d })
        }),
{
    assert(tick(CursorModel::Sequence(es, i, Box::new(child)), input, f) == sequence_from(es, i, child, input, input, f));
}

/// On an instantaneous input a `Select` whose current child does not fail
/// ticks that child alone and keeps its position.
pub proof fn lemma_select_instant_input<A: StartState<S>, S, F: Step<A, S>>(
    es: Seq<Event<A>>,
    i: int,
    child: CursorModel<A, S>,
    input: Input,
    f: F,
)
    requires
        0 <= i < es.len(),
        !(input is Update),
        tick(child, input, f).1 != Status::Failure,
    ensures
        ({
            let (c2, st, d) = tick(child, input, f);
            let (n, st_all, d_all) = tick(CursorModel::Select(es, i, Box::new(child)), input, f);
            &&& n == CursorModel::Select(es, i, Box::new(c2))
            &&& st_all == st
            &&& d_all == (if st == Status::Running { 0 } else { d })
        }),
{
    assert(tick(CursorModel::Select(es, i, Box::new(child)), input, f) == select_from(es, i, child, input, input, f));
}

/// The rest of a `Select` tick on an update does not depend on which
/// update the tick began with.
proof fn lemma_select_from_update<A: StartState<S>, S, F: Step<A, S>>(
    es: Seq<Event<A>>,
    i: int,
    child: CursorModel<A, S>,
    cur: Input,
    dt1: u64,
    dt2: u64,
    f: F,
)
    ensures
        select_from(es, i, child, cur, Input::Update(dt1), f) == select_from(
            es,
            i,
            child,
            cur,
            Input::Update(dt2),
            f,
        ),
    decreases es.len() - i,
{
    if 0 <= i < es.len() {
        let (c2, st, d) = tick(child, cur, f);
        if st == Status::Failure && i + 1 < es.len() {
            lemma_select_from_update(es, i + 1, spawn(es[i + 1]), Input::Update(d), dt1, dt2, f);
        }
    }
}

/// On an update, a `Select` whose current child fails goes on, within the
/// same tick, to a fresh next child that sees the failed child's leftover time.
pub proof fn lemma_select_update_cascade<A: StartState<S>, S, F: Step<A, S>>(
    es: Seq<Event<A>>,
    i: int,
    child: CursorModel<A, S>,
    dt: u64,
    f: F,
)
    requires
        0 <= i,
        i + 1 < es.len(),
        tick(child, Input::Update(dt), f).1 == Status::Failure,
    ensures
        tick(CursorModel::Select(es, i, Box::new(child)), Input::Update(dt), f) == tick(
            CursorModel::Select(es, i + 1, Box::new(spawn(es[i + 1]))),
            Input::Update(tick(child, Input::Update(dt), f).2),
            f,
        ),
{
    let d: u64 = tick(child, Input::Update(dt), f).2;
    let next = spawn::<A, S>(es[i + 1]);
    assert(tick(CursorModel::Select(es, i, Box::new(child)), Input::Update(dt), f)
        == select_from(es, i, child, Input::Update(dt), Input::Update(dt), f));
    assert(select_from(es, i, child, Input::Update(dt), Input::Update(dt), f)
        == select_from(es, i + 1, next, Input::Update(d), Input::Update(dt), f));
    assert(tick(CursorModel::Select(es, i + 1, Box::new(next)), Input::Update(d), f)
        == select_from(es, i + 1, next, Input::Update(d), Input::Update(d), f));
    lemma_select_from_update(es, i + 1, next, Input::Update(d), dt, d, f);
}

/// The rest of a `WhenAll` tick fails with the leftover time of the first
/// remaining child that fails.
proof fn lemma_when_all_from_fails<A: StartState<S>, S, F: Step<A, S>>(
    done: Seq<Option<CursorModel<A, S>>>,
    rest: Seq<Option<CursorModel<A, S>>>,
    input: Input,
    f: F,
    best: Option<u64>,
    j: int,
)
    requires
        0 <= j < rest.len(),
        rest[j] is Some,
        tick(rest[j]->Some_0, input, f).1 == Status::Failure,
        forall|k: int|
            0 <= k < j ==> (#[trigger] rest[k] is None || tick(rest[k]->Some_0, input, f).1 != Status::Failure),
    ensures
        when_all_from(done, rest, input, f, best).1 == Status::Failure,
        when_all_from(done, rest, input, f, best).2 == tick(rest[j]->Some_0, input, f).2,
    decreases rest.len(),
{
    if j > 0 {
        let tail = rest.subrange(1, rest.len() as int);
        assert(tail[j - 1] == rest[j]);
        assert forall|k: int| 0 <= k < j - 1 implies (#[trigger] tail[k] is None || tick(
            tail[k]->Some_0,
            input,
            f,
        ).1 != Status::Failure) by {
            assert(tail[k] == rest[k + 1]);
        }
        assert(rest[0] is None || tick(rest[0]->Some_0, input, f).1 != Status::Failure);
        match rest[0] {
            None => lemma_when_all_from_fails(done.push(None), tail, input, f, best, j - 1),
            Some(c) => {
                let (c2, st, d) = tick(c, input, f);
                let b: u64 = match best {
                    Some(b) => if b <= d { b } else { d },
                    None => d,
                };
                if st == Status::Running {
                    lemma_when_all_from_fails(done.push(Some(c2)), tail, input, f, best, j - 1);
                } else {
                    lemma_when_all_from_fails(done.push(None), tail, input, f, Some(b), j - 1);
                }
            },
        }
    }
}

/// `WhenAll` fails fast: when a child fails on a tick, the tick fails with
/// that child's leftover time, whatever the later children would report.
pub proof fn lemma_when_all_fail_fast<A: StartState<S>, S, F: Step<A, S>>(
    slots: Seq<Option<CursorModel<A, S>>>,
    j: int,
    input: Input,
    f: F,
)
    requires
        0 <= j < slots.len(),
        slots[j] is Some,
        tick(slots[j]->Some_0, input, f).1 == Status::Failure,
        forall|k: int|
            0 <= k < j ==> (#[trigger] slots[k] is None || tick(slots[k]->Some_0, input, f).1 != Status::Failure),
    ensures
        tick(CursorModel::WhenAll(slots), input, f).1 == Status::Failure,
        tick(CursorModel::WhenAll(slots), input, f).2 == tick(slots[j]->Some_0, input, f).2,
{
    lemma_when_all_from_fails(Seq::empty(), slots, input, f, None, j);
}

proof fn lemma_when_all_from_len<A: StartState<S>, S, F: Step<A, S>>(
    done: Seq<Option<CursorModel<A, S>>>,
    rest: Seq<Option<CursorModel<A, S>>>,
    input: Input,
    f: F,
    best: Option<u64>,
)
    ensures
        when_all_from(done, rest, input, f, best).0 is WhenAll,
        when_all_from(done, rest, input, f, best).0->WhenAll_0.len() == done.len() + rest.len(),
    decreases rest.len(),
{
    if rest.len() > 0 {
        let tail = rest.subrange(1, rest.len() as int);
        match rest[0] {
            None => lemma_when_all_from_len(done.push(None), tail, input, f, best),
            Some(c) => {
                let (c2, st, d) = tick(c, input, f);
                let b: u64 = match best {
                    Some(b) => if b <= d { b } else { d },
                    None => d,
                };
                if st == Status::Running {
                    lemma_when_all_from_len(done.push(Some(c2)), tail, input, f, best);
                } else if st == Status::Success {
                    lemma_when_all_from_len(done.push(None), tail, input, f, Some(b));
                }
            },
        }
    }
}

/// A `WhenAll` keeps one slot per child through every tick: a finished
/// child leaves its slot empty rather than removing it.
pub proof fn lemma_when_all_keeps_slots<A: StartState<S>, S, F: Step<A, S>>(
    slots: Seq<Option<CursorModel<A, S>>>,
    input: Input,
    f: F,
)
    ensures
        tick(CursorModel::WhenAll(slots), input, f).0 is WhenAll,
        tick(CursorModel::WhenAll(slots), input, f).0->WhenAll_0.len() == slots.len(),
{
    lemma_when_all_from_len(Seq::empty(), slots, input, f, None);
}

/// The time left after children `j`, `j + 1`, ... of `es` each run fresh
/// on an update carrying the time the one before left.
pub open spec fn leftover_in_turn<A: StartState<S>, S, F: Step<A, S>>(
    es: Seq<Event<A>>,
    j: int,
    dt: u64,
    f: F,
) -> u64
    decreases es.len() - j,
{
    if 0 <= j < es.len() {
        leftover_in_turn::<A, S, F>(es, j + 1, tick(spawn::<A, S>(es[j]), Input::Update(dt), f).2, f)
    } else {
        dt
    }
}

/// Whether children `j`, `j + 1`, ... of `es`, each run fresh on an update
/// carrying the time the one before left, all report `st`.
pub open spec fn all_report<A: StartState<S>, S, F: Step<A, S>>(
    es: Seq<Event<A>>,
    j: int,
    dt: u64,
    f: F,
    st: Status,
) -> bool
    decreases es.len() - j,
{
    if 0 <= j < es.len() {
        let (_, s, d) = tick(spawn::<A, S>(es[j]), Input::Update(dt), f);
        s == st && all_report::<A, S, F>(es, j + 1, d, f, st)
    } else {
        true
    }
}

proof fn lemma_select_from_all_fail<A: StartState<S>, S, F: Step<A, S>>(
    es: Seq<Event<A>>,
    j: int,
    dt: u64,
    orig: u64,
    f: F,
)
    requires
        0 <= j < es.len(),
        all_report::<A, S, F>(es, j, dt, f, Status::Failure),
    ensures
        select_from(es, j, spawn::<A, S>(es[j]), Input::Update(dt), Input::Update(orig), f).1
            == Status::Failure,
        select_from(es, j, spawn::<A, S>(es[j]), Input::Update(dt), Input::Update(orig), f).2
            == leftover_in_turn::<A, S, F>(es, j, dt, f),
    decreases es.len() - j,
{
    let d: u64 = tick(spawn::<A, S>(es[j]), Input::Update(dt), f).2;
    if j + 1 < es.len() {
        lemma_select_from_all_fail::<A, S, F>(es, j + 1, d, orig, f);
    } else {
        assert(leftover_in_turn::<A, S, F>(es, j + 1, d, f) == d);
    }
}

proof fn lemma_sequence_from_all_succeed<A: StartState<S>, S, F: Step<A, S>>(
    es: Seq<Event<A>>,
    j: int,
    dt: u64,
    orig: u64,
    f: F,
)
    requires
        0 <= j < es.len(),
        all_report::<A, S, F>(es, j, dt, f, Status::Success),
    ensures
        sequence_from(es, j, spawn::<A, S>(es[j]), Input::Update(dt), Input::Update(orig), f).1
            == Status::Success,
        sequence_from(es, j, spawn::<A, S>(es[j]), Input::Update(dt), Input::Update(orig), f).2
            == leftover_in_turn::<A, S, F>(es, j, dt, f),
    decreases es.len() - j,
{
    let d: u64 = tick(spawn::<A, S>(es[j]), Input::Update(dt), f).2;
    if j + 1 < es.len() {
        lemma_sequence_from_all_succeed::<A, S, F>(es, j + 1, d, orig, f);
    } else {
        assert(leftover_in_turn::<A, S, F>(es, j + 1, d, f) == d);
    }
}

/// A fresh `Select` whose children all fail, one after the other within
/// the tick, fails with the time the last child left over.
pub proof fn lemma_select_all_fail<A: StartState<S>, S, F: Step<A, S>>(
    es: Vec<Event<A>>,
    dt: u64,
    f: F,
)
    requires
        es@.len() > 0,
        all_report::<A, S, F>(es@, 0, dt, f, Status::Failure),
    ensures
        tick(spawn::<A, S>(Event::Select(es)), Input::Update(dt), f).1 == Status::Failure,
        tick(spawn::<A, S>(Event::Select(es)), Input::Update(dt), f).2 == leftover_in_turn::<A, S, F>(es@, 0, dt, f),
{
    assert(spawn_at::<A, S>(es@, 0) == spawn::<A, S>(es@[0]));
    lemma_select_from_all_fail::<A, S, F>(es@, 0, dt, dt, f);
}

/// A fresh `Sequence` whose children all succeed, one after the other
/// within the tick, succeeds with the time the last child left over.
pub proof fn lemma_sequence_all_succeed<A: StartState<S>, S, F: Step<A, S>>(
    es: Vec<Event<A>>,
    dt: u64,
    f: F,
)
    requires
        es@.len() > 0,
        all_report::<A, S, F>(es@, 0, dt, f, Status::Success),
    ensures
        tick(spawn::<A, S>(Event::Sequence(es)), Input::Update(dt), f).1 == Status::Success,
        tick(spawn::<A, S>(Event::Sequence(es)), Input::Update(dt), f).2 == leftover_in_turn::<A, S, F>(es@, 0, dt, f),
{
    assert(spawn_at::<A, S>(es@, 0) == spawn::<A, S>(es@[0]));
    lemma_sequence_from_all_succeed::<A, S, F>(es@, 0, dt, dt, f);
}

/// Whether a step function never hands back more time than it was given.
pub open spec fn conserves_time<A, S, F: Step<A, S>>(f: F) -> bool {
    forall|dt: u64, a: A, s: S| #[trigger] f.outcome(dt, a, s).1 <= dt
}

/// Time is conserved: with a step function that never hands back more
/// time than it was given, a tick never reports more time left over than
/// its input carried (none at all for an instantaneous input).
pub proof fn lemma_time_conservation<A: StartState<S>, S, F: Step<A, S>>(
    c: CursorModel<A, S>,
    input: Input,
    f: F,
)
    requires
        c.wf(),
        conserves_time::<A, S, F>(f),
    ensures
        tick(c, input, f).2 <= input.dt(),
    decreases c.rank(), 0nat, 0nat, 0int,
{
    match c {
        CursorModel::State(a, s) => {
            if let Input::Update(dt) = input {
                assert(f.outcome(dt, a, s).1 <= dt);
            }
        },
        CursorModel::Invert(inner) => lemma_time_conservation(*inner, input, f),
        CursorModel::Select(es, i, child) => lemma_select_time(es, i, *child, input, input, f),
        CursorModel::Sequence(es, i, child) => lemma_sequence_time(es, i, *child, input, input, f),
        CursorModel::While(cond, body, i, child) => {
            lemma_time_conservation(*cond, input, f);
            let (cond2, st, d) = tick(*cond, input, f);
            if st == Status::Running {
                lemma_while_time(cond2, body, i, *child, input, input, f, true, input.dt());
            }
        },
        CursorModel::WhenAll(slots) => lemma_when_all_time(Seq::empty(), slots, input, f, None),
        _ => {},
    }
}

proof fn lemma_select_time<A: StartState<S>, S, F: Step<A, S>>(
    es: Seq<Event<A>>,
    i: int,
    child: CursorModel<A, S>,
    cur: Input,
    orig: Input,
    f: F,
)
    requires
        child.wf(),
        forall|j: int| 0 <= j < es.len() ==> (#[trigger] es[j]).wf(),
        conserves_time::<A, S, F>(f),
        cur.dt() <= orig.dt(),
    ensures
        select_from(es, i, child, cur, orig, f).2 <= orig.dt(),
    decreases max_nat(child.rank(), depth_of_all(es)), 0nat, 0nat, es.len() - i + 1,
{
    if 0 <= i < es.len() {
        lemma_time_conservation(child, cur, f);
        let (c2, st, d) = tick(child, cur, f);
        if st == Status::Failure && i + 1 < es.len() {
            lemma_spawn_rank::<A, S>(es[i + 1]);
            lemma_depth_of_all(es, i + 1);
            lemma_spawn_wf::<A, S>(es[i + 1]);
            lemma_select_time(es, i + 1, spawn(es[i + 1]), passed_on(orig, d), orig, f);
        }
    }
}

proof fn lemma_sequence_time<A: StartState<S>, S, F: Step<A, S>>(
    es: Seq<Event<A>>,
    i: int,
    child: CursorModel<A, S>,
    cur: Input,
    orig: Input,
    f: F,
)
    requires
        child.wf(),
        forall|j: int| 0 <= j < es.len() ==> (#[trigger] es[j]).wf(),
        conserves_time::<A, S, F>(f),
        cur.dt() <= orig.dt(),
    ensures
        sequence_from(es, i, child, cur, orig, f).2 <= orig.dt(),
    decreases max_nat(child.rank(), depth_of_all(es)), 0nat, 0nat, es.len() - i + 1,
{
    if 0 <= i < es.len() {
        lemma_time_conservation(child, cur, f);
        let (c2, st, d) = tick(child, cur, f);
        if st == Status::Success && orig is Update && i + 1 < es.len() {
            lemma_spawn_rank::<A, S>(es[i + 1]);
            lemma_depth_of_all(es, i + 1);
            lemma_spawn_wf::<A, S>(es[i + 1]);
            lemma_sequence_time(es, i + 1, spawn(es[i + 1]), Input::Update(d), orig, f);
        }
    }
}

proof fn lemma_while_time<A: StartState<S>, S, F: Step<A, S>>(
    cond: CursorModel<A, S>,
    body: Seq<Event<A>>,
    i: int,
    child: CursorModel<A, S>,
    cur: Input,
    orig: Input,
    f: F,
    first_lap: bool,
    lap_dt: u64,
)
    requires
        child.wf(),
        forall|j: int| 0 <= j < body.len() ==> (#[trigger] body[j]).wf(),
        conserves_time::<A, S, F>(f),
        cur.dt() <= orig.dt(),
    ensures
        while_from(cond, body, i, child, cur, orig, f, first_lap, lap_dt).2 <= orig.dt(),
    decreases
        max_nat(child.rank(), depth_of_all(body)),
        if first_lap { 1nat } else { 0nat },
        lap_dt as nat,
        body.len() - i + 1,
{
    if 0 <= i < body.len() {
        lemma_time_conservation(child, cur, f);
        let (c2, st, d) = tick(child, cur, f);
        if st == Status::Success && orig is Update {
            if i + 1 < body.len() {
                lemma_spawn_rank::<A, S>(body[i + 1]);
                lemma_depth_of_all(body, i + 1);
                lemma_spawn_wf::<A, S>(body[i + 1]);
                lemma_while_time(cond, body, i + 1, spawn(body[i + 1]), Input::Update(d), orig, f, first_lap, lap_dt);
            } else if first_lap || d < lap_dt {
                lemma_spawn_rank::<A, S>(body[0]);
                lemma_depth_of_all(body, 0);
                lemma_spawn_wf::<A, S>(body[0]);
                lemma_while_time(cond, body, 0, spawn(body[0]), Input::Update(d), orig, f, false, d);
            }
        }
    }
}

proof fn lemma_when_all_time<A: StartState<S>, S, F: Step<A, S>>(
    done: Seq<Option<CursorModel<A, S>>>,
    rest: Seq<Option<CursorModel<A, S>>>,
    input: Input,
    f: F,
    best: Option<u64>,
)
    requires
        forall|k: int| 0 <= k < rest.len() ==> match #[trigger] rest[k] {
            Some(c) => c.wf(),
            None => true,
        },
        conserves_time::<A, S, F>(f),
        best matches Some(b) ==> b <= input.dt(),
    ensures
        when_all_from(done, rest, input, f, best).2 <= input.dt(),
    decreases crate::semantics::rank_of_slots(rest), 0nat, 0nat, rest.len(),
{
    if rest.len() > 0 {
        let tail = rest.subrange(1, rest.len() as int);
        assert forall|k: int| 0 <= k < tail.len() implies match #[trigger] tail[k] {
            Some(c) => c.wf(),
            None => true,
        } by {
            assert(tail[k] == rest[k + 1]);
        }
        assert(match rest[0] {
            Some(c) => c.wf(),
            None => true,
        });
        match rest[0] {
            None => lemma_when_all_time(done.push(None), tail, input, f, best),
            Some(c) => {
                lemma_time_conservation(c, input, f);
                let (c2, st, d) = tick(c, input, f);
                let b: u64 = match best {
                    Some(b) => if b <= d { b } else { d },
                    None => d,
                };
                if st == Status::Running {
                    lemma_when_all_time(done.push(Some(c2)), tail, input, f, best);
                } else if st == Status::Success {
                    lemma_when_all_time(done.push(None), tail, input, f, Some(b));
                }
            },
        }
    }
}

} // verus!
