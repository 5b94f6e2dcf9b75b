use vstd::prelude::*;
use crate::action::{StartState, Step};
use crate::event::{depth_of_all, max_nat, Event};
use crate::semantics::{
    lemma_depth_of_all, lemma_rank_of_slots, lemma_spawn_all_index, lemma_spawn_rank, lemma_spawn_wf,
    rank_of_slots, select_from, sequence_from, spawn, spawn_all, spawn_at, tick, when_all_from,
    while_from, CursorModel,
};
use crate::status::{Input, Key, Status};

verus! {

/// Keeps track of a run of an event tree.
pub enum Cursor<'a, A, S> {
    /// Keeps track of whether a key was pressed.
    KeyPressedCursor(Key),
    /// Keeps track of an action and its per-instance state.
    State(&'a A, S),
    /// Keeps track of `Success` <=> `Failure`.
    InvertCursor(Box<Cursor<'a, A, S>>),
    /// Keeps track of a wait: target time and time accumulated so far.
    WaitCursor(u64, u64),
    /// Keeps track of a `Select`: children, current position, current child.
    SelectCursor(&'a Vec<Event<A>>, usize, Box<Cursor<'a, A, S>>),
    /// Keeps track of a `Sequence`: children, current position, current child.
    SequenceCursor(&'a Vec<Event<A>>, usize, Box<Cursor<'a, A, S>>),
    /// Keeps track of a `While`: condition, body, position in the body, current body child.
    WhileCursor(Box<Cursor<'a, A, S>>, &'a Vec<Event<A>>, usize, Box<Cursor<'a, A, S>>),
    /// Keeps track of a `WhenAll`: one slot per child, emptied when the child succeeds.
    WhenAllCursor(Vec<Option<Cursor<'a, A, S>>>),
}

impl<'a, A, S> Cursor<'a, A, S> {
    /// The mathematical value of this cursor.
    pub open spec fn model(&self) -> CursorModel<A, S>
        decreases self,
    {
        match self {
            Cursor::KeyPressedCursor(k) => CursorModel::KeyPressed(*k),
            Cursor::State(a, s) => CursorModel::State(**a, *s),
            Cursor::InvertCursor(c) => CursorModel::Invert(Box::new(c.model())),
            Cursor::WaitCursor(t, e) => CursorModel::Wait(*t, *e),
            Cursor::SelectCursor(es, i, c) => CursorModel::Select(es@, *i as int, Box::new(c.model())),
            Cursor::SequenceCursor(es, i, c) => CursorModel::Sequence(es@, *i as int, Box::new(c.model())),
            Cursor::WhileCursor(cond, body, i, c) => CursorModel::While(
                Box::new(cond.model()),
                body@,
                *i as int,
                Box::new(c.model()),
            ),
            Cursor::WhenAllCursor(slots) => CursorModel::WhenAll(
                Seq::new(
                    slots@.len(),
                    |k: int|
                        if 0 <= k < slots@.len() {
                            match slots@[k] {
                                Some(c) => Some(c.model()),
                                None => None,
                            }
                        } else {
                            None
                        },
                ),
            ),
        }
    }

    /// The invariants every cursor keeps between ticks.
    pub open spec fn wf(&self) -> bool {
        self.model().wf()
    }
}

impl<A> Event<A> {
    /// Creates the cursor that a run of this tree starts from.
    pub fn to_cursor<'a, S>(&'a self) -> (r: Cursor<'a, A, S>) where A: StartState<S>
        requires
            self.wf(),
        ensures
            r.model() == spawn::<A, S>(*self),
        decreases self,
    {
        match self {
            Event::KeyPressed(k) => Cursor::KeyPressedCursor(*k),
            Event::Action(a) => Cursor::State(a, a.start_state()),
            Event::Invert(e) => Cursor::InvertCursor(Box::new(e.to_cursor())),
            Event::Wait(d) => Cursor::WaitCursor(*d, 0),
            Event::Select(es) => {
                assert(spawn_at::<A, S>(es@, 0) == spawn::<A, S>(es@[0]));
                Cursor::SelectCursor(es, 0, Box::new(es[0].to_cursor()))
            },
            Event::Sequence(es) => {
                assert(spawn_at::<A, S>(es@, 0) == spawn::<A, S>(es@[0]));
                Cursor::SequenceCursor(es, 0, Box::new(es[0].to_cursor()))
            },
            Event::While(cond, body) => {
                assert(spawn_at::<A, S>(body@, 0) == spawn::<A, S>(body@[0]));
                Cursor::WhileCursor(Box::new(cond.to_cursor()), body, 0, Box::new(body[0].to_cursor()))
            },
            Event::WhenAll(es) => {
                let mut slots: Vec<Option<Cursor<'a, A, S>>> = Vec::new();
                let mut j: usize = 0;
                while j < es.len()
                    invariant
                        self == Event::WhenAll(*es),
                        forall|k: int| 0 <= k < es@.len() ==> (#[trigger] es@[k]).wf(),
                        j <= es@.len(),
                        slots@.len() == j,
                        forall|k: int| 0 <= k < j ==> ((#[trigger] slots@[k]) matches Some(c) && c.model() == spawn::<A, S>(es@[k])),
                    decreases es.len() - j,
                {
                    assert(decreases_to!(self => es@[j as int])) by {
                        assert(decreases_to!(*self => self->WhenAll_0));
                        assert(decreases_to!(*es => es@));
                        assert(decreases_to!(es@ => es@[j as int]));
                    }
                    slots.push(Some(es[j].to_cursor()));
                    j += 1;
                }
                let r = Cursor::WhenAllCursor(slots);
                proof { lemma_spawn_all_index::<A, S>(es@); }
                assert(r.model() == spawn::<A, S>(*self)) by {
                    assert(r.model()->WhenAll_0 =~= spawn_all::<A, S>(es@));
                }
                r
            },
        }
    }
}

/// The model of a `WhenAll` cursor is the list of the models of its slots.
proof fn lemma_when_all_model<'a, A, S>(slots: Vec<Option<Cursor<'a, A, S>>>)
    ensures
        Cursor::WhenAllCursor(slots).model() == CursorModel::WhenAll(slots_model(slots@)),
{
    assert(Cursor::WhenAllCursor(slots).model()->WhenAll_0 =~= slots_model(slots@));
}

/// The models of a list of slots.
pub open spec fn slots_model<'a, A, S>(slots: Seq<Option<Cursor<'a, A, S>>>) -> Seq<Option<CursorModel<A, S>>> {
    Seq::new(
        slots.len(),
        |k: int|
            match slots[k] {
                Some(c) => Some(c.model()),
                None => None,
            },
    )
}

impl<'a, A: StartState<S>, S> Cursor<'a, A, S> {
    /// Updates the cursor with one input.
    ///
    /// `f` advances leaf actions. Returns the status of the behavior and the
    /// time of the input that it did not use; the cursor moves on as [`tick`]
    /// describes. Every cursor made by [`Event::to_cursor`] keeps the
    /// invariants that this needs, through any number of updates.
    pub fn update<F: Step<A, S>>(&mut self, e: &Input, f: &F) -> (r: (Status, u64))
        requires
            old(self).wf(),
        ensures
            (final(self).model(), r.0, r.1) == tick(old(self).model(), *e, *f),
            final(self).wf(),
        decreases old(self).model().rank(), 0nat,
    {
        match self {
            Cursor::KeyPressedCursor(key) => match e {
                Input::KeyPress(k) => if k.code == key.code {
                    (Status::Success, 0)
                } else {
                    (Status::Running, 0)
                },
                _ => (Status::Running, 0),
            },
            Cursor::State(a, s) => match e {
                Input::Update(dt) => f.step(*dt, *a, s),
                _ => (Status::Running, 0),
            },
            Cursor::InvertCursor(c) => {
                let (st, d) = c.update(e, f);
                match st {
                    Status::Running => (Status::Running, d),
                    Status::Failure => (Status::Success, d),
                    Status::Success => (Status::Failure, d),
                }
            },
            Cursor::WaitCursor(target, elapsed) => match e {
                Input::Update(dt) => if *dt >= *target - *elapsed {
                    let leftover: u64 = *dt - (*target - *elapsed);
                    *elapsed = *target;
                    (Status::Success, leftover)
                } else {
                    *elapsed = *elapsed + *dt;
                    (Status::Running, 0)
                },
                _ => (Status::Running, 0),
            },
            Cursor::SelectCursor(es, i, c) => update_select(*es, i, c, e, f),
            Cursor::SequenceCursor(es, i, c) => update_sequence(*es, i, c, e, f),
            Cursor::WhileCursor(cond, body, i, c) => {
                let (st, d) = cond.update(e, f);
                match st {
                    Status::Running => update_while(Ghost(cond.model()), *body, i, c, e, f),
                    _ => (st, d),
                }
            },
            Cursor::WhenAllCursor(slots) => {
                proof {
                    lemma_when_all_model(*slots);
                }
                let r = update_when_all(slots, e, f);
                proof {
                    lemma_when_all_model(*slots);
                }
                r
            },
        }
    }
}

/// The `Select` part of [`Cursor::update`].
fn update_select<'a, A: StartState<S>, S, F: Step<A, S>>(
    es: &'a Vec<Event<A>>,
    i: &mut usize,
    child: &mut Box<Cursor<'a, A, S>>,
    e: &Input,
    f: &F,
) -> (r: (Status, u64))
    requires
        CursorModel::Select(es@, *old(i) as int, Box::new(old(child).model())).wf(),
    ensures
        (CursorModel::Select(es@, *final(i) as int, Box::new(final(child).model())), r.0, r.1)
            == select_from(es@, *old(i) as int, old(child).model(), *e, *e, *f),
        CursorModel::Select(es@, *final(i) as int, Box::new(final(child).model())).wf(),
    decreases max_nat(old(child).model().rank(), depth_of_all(es@)), 1nat,
{
    let ghost bound = max_nat(old(child).model().rank(), depth_of_all(es@));
    let mut cur: Input = *e;
    while *i < es.len()
        invariant
            CursorModel::Select(es@, *i as int, Box::new(child.model())).wf(),
            0 < es@.len(),
            *i <= es@.len(),
            forall|j: int| 0 <= j < es@.len() ==> (#[trigger] es@[j]).wf(),
            child.model().rank() <= bound,
            bound == max_nat(old(child).model().rank(), depth_of_all(es@)),
            select_from(es@, *i as int, child.model(), cur, *e, *f)
                == select_from(es@, *old(i) as int, old(child).model(), *e, *e, *f),
        decreases es@.len() - *i,
    {
        let (st, d) = child.update(&cur, f);
        match st {
            Status::Success => return (Status::Success, d),
            Status::Running => return (Status::Running, 0),
            Status::Failure => {
                cur = match e {
                    Input::Update(_) => Input::Update(d),
                    _ => *e,
                };
                *i = *i + 1;
                if *i >= es.len() {
                    return (Status::Failure, cur.delta());
                }
                proof {
                    lemma_spawn_rank::<A, S>(es@[*i as int]);
                    lemma_depth_of_all(es@, *i as int);
                    lemma_spawn_wf::<A, S>(es@[*i as int]);
                }
                **child = es[*i].to_cursor();
            },
        }
    }
    (Status::Running, 0)
}

/// The `Sequence` part of [`Cursor::update`].
fn update_sequence<'a, A: StartState<S>, S, F: Step<A, S>>(
    es: &'a Vec<Event<A>>,
    i: &mut usize,
    child: &mut Box<Cursor<'a, A, S>>,
    e: &Input,
    f: &F,
) -> (r: (Status, u64))
    requires
        CursorModel::Sequence(es@, *old(i) as int, Box::new(old(child).model())).wf(),
    ensures
        (CursorModel::Sequence(es@, *final(i) as int, Box::new(final(child).model())), r.0, r.1)
            == sequence_from(es@, *old(i) as int, old(child).model(), *e, *e, *f),
        CursorModel::Sequence(es@, *final(i) as int, Box::new(final(child).model())).wf(),
    decreases max_nat(old(child).model().rank(), depth_of_all(es@)), 1nat,
{
    let ghost bound = max_nat(old(child).model().rank(), depth_of_all(es@));
    let mut cur: Input = *e;
    while *i < es.len()
        invariant
            CursorModel::Sequence(es@, *i as int, Box::new(child.model())).wf(),
            0 < es@.len(),
            *i <= es@.len(),
            forall|j: int| 0 <= j < es@.len() ==> (#[trigger] es@[j]).wf(),
            child.model().rank() <= bound,
            bound == max_nat(old(child).model().rank(), depth_of_all(es@)),
            sequence_from(es@, *i as int, child.model(), cur, *e, *f)
                == sequence_from(es@, *old(i) as int, old(child).model(), *e, *e, *f),
        decreases es@.len() - *i,
    {
        let (st, d) = child.update(&cur, f);
        match st {
            Status::Failure => return (Status::Failure, d),
            Status::Running => return (Status::Running, 0),
            Status::Success => {
                match e {
                    Input::Update(_) => {},
                    _ => {
                        // The child consumed an instantaneous input.
                        if *i + 1 == es.len() {
                            return (Status::Success, d);
                        } else {
                            return (Status::Running, 0);
                        }
                    },
                }
                cur = Input::Update(d);
                *i = *i + 1;
                if *i >= es.len() {
                    return (Status::Success, d);
                }
                proof {
                    lemma_spawn_rank::<A, S>(es@[*i as int]);
                    lemma_depth_of_all(es@, *i as int);
                    lemma_spawn_wf::<A, S>(es@[*i as int]);
                }
                **child = es[*i].to_cursor();
            },
        }
    }
    (Status::Running, 0)
}

/// The body part of the `While` case of [`Cursor::update`], once the
/// condition `cond` has been ticked and is still running.
fn update_while<'a, A: StartState<S>, S, F: Step<A, S>>(
    Ghost(cond): Ghost<CursorModel<A, S>>,
    body: &'a Vec<Event<A>>,
    i: &mut usize,
    child: &mut Box<Cursor<'a, A, S>>,
    e: &Input,
    f: &F,
) -> (r: (Status, u64))
    requires
        cond.wf(),
        CursorModel::While(Box::new(cond), body@, *old(i) as int, Box::new(old(child).model())).wf(),
    ensures
        (CursorModel::While(Box::new(cond), body@, *final(i) as int, Box::new(final(child).model())), r.0, r.1)
            == while_from(cond, body@, *old(i) as int, old(child).model(), *e, *e, *f, true, e.dt()),
        CursorModel::While(Box::new(cond), body@, *final(i) as int, Box::new(final(child).model())).wf(),
    decreases max_nat(old(child).model().rank(), depth_of_all(body@)), 1nat,
{
    let ghost bound = max_nat(old(child).model().rank(), depth_of_all(body@));
    let mut cur: Input = *e;
    let mut first_lap: bool = true;
    let mut lap_dt: u64 = e.delta();
    loop
        invariant
            CursorModel::While(Box::new(cond), body@, *i as int, Box::new(child.model())).wf(),
            cond.wf(),
            *i < body@.len(),
            forall|j: int| 0 <= j < body@.len() ==> (#[trigger] body@[j]).wf(),
            child.model().rank() <= bound,
            bound == max_nat(old(child).model().rank(), depth_of_all(body@)),
            while_from(cond, body@, *i as int, child.model(), cur, *e, *f, first_lap, lap_dt)
                == while_from(cond, body@, *old(i) as int, old(child).model(), *e, *e, *f, true, e.dt()),
        decreases (if first_lap { 1int } else { 0int }), lap_dt, body@.len() - *i,
    {
        let (st, d) = child.update(&cur, f);
        match st {
            Status::Failure => return (Status::Failure, d),
            Status::Running => return (Status::Running, 0),
            Status::Success => {
                match e {
                    Input::Update(_) => {},
                    // The child consumed an instantaneous input.
                    _ => return (Status::Running, 0),
                }
                if *i < body.len() - 1 {
                    *i = *i + 1;
                } else if first_lap || d < lap_dt {
                    *i = 0;
                    first_lap = false;
                    lap_dt = d;
                } else {
                    // A whole fresh lap used no time: it would repeat forever.
                    *i = 0;
                    proof {
                        lemma_spawn_wf::<A, S>(body@[0]);
                    }
                    **child = body[0].to_cursor();
                    return (Status::Running, 0);
                }
                proof {
                    lemma_spawn_rank::<A, S>(body@[*i as int]);
                    lemma_depth_of_all(body@, *i as int);
                    lemma_spawn_wf::<A, S>(body@[*i as int]);
                }
                **child = body[*i].to_cursor();
                cur = Input::Update(d);
            },
        }
    }
}

/// The `WhenAll` part of [`Cursor::update`].
fn update_when_all<'a, A: StartState<S>, S, F: Step<A, S>>(
    slots: &mut Vec<Option<Cursor<'a, A, S>>>,
    e: &Input,
    f: &F,
) -> (r: (Status, u64))
    requires
        CursorModel::WhenAll(slots_model(old(slots)@)).wf(),
    ensures
        (CursorModel::WhenAll(slots_model(final(slots)@)), r.0, r.1)
            == when_all_from(Seq::empty(), slots_model(old(slots)@), *e, *f, None),
        CursorModel::WhenAll(slots_model(final(slots)@)).wf(),
    decreases rank_of_slots(slots_model(old(slots)@)), 1nat,
{
    let ghost orig = slots_model(old(slots)@);
    let n: usize = slots.len();
    let mut best: Option<u64> = None;
    let mut all_empty: bool = true;
    let mut j: usize = 0;
    assert(slots_model(slots@).subrange(0, 0) =~= Seq::<Option<CursorModel<A, S>>>::empty());
    assert(orig.subrange(0, n as int) =~= orig);
    while j < n
        invariant
            n == slots@.len(),
            n == orig.len(),
            0 <= j <= n,
            orig == slots_model(old(slots)@),
            CursorModel::WhenAll(slots_model(slots@)).wf(),
            slots_model(slots@).subrange(j as int, n as int) == orig.subrange(j as int, n as int),
            all_empty == forall|k: int| 0 <= k < j ==> #[trigger] slots@[k] is None,
            when_all_from(slots_model(slots@).subrange(0, j as int), orig.subrange(j as int, n as int), *e, *f, best)
                == when_all_from(Seq::empty(), orig, *e, *f, None),
        decreases n - j,
    {
        let ghost before = slots_model(slots@);
        let ghost old_slots = slots@;
        let ghost old_all = all_empty;
        assert(before[j as int] == orig[j as int]) by {
            assert(before.subrange(j as int, n as int)[0] == orig.subrange(j as int, n as int)[0]);
        }
        assert(orig.subrange(j as int, n as int).subrange(1, (n - j) as int) =~= orig.subrange(j + 1, n as int));
        let mut cell: Option<Cursor<'a, A, S>> = None;
        slots.set_and_swap(j, &mut cell);
        match cell {
            None => {},
            Some(mut c) => {
                proof {
                    lemma_rank_of_slots(orig, j as int);
                }
                let (st, d) = c.update(e, f);
                match st {
                    Status::Running => {
                        slots.set(j, Some(c));
                        all_empty = false;
                    },
                    Status::Failure => {
                        slots.set(j, Some(c));
                        assert(slots_model(slots@) =~= before.subrange(0, j as int).push(slots_model(slots@)[j as int]) + orig.subrange(j + 1, n as int));
                        return (Status::Failure, d);
                    },
                    Status::Success => {
                        best = Some(
                            match best {
                                Some(b) => if b <= d {
                                    b
                                } else {
                                    d
                                },
                                None => d,
                            },
                        );
                    },
                }
            },
        }
        assert(slots_model(slots@).subrange(0, j + 1) =~= before.subrange(0, j as int).push(slots_model(slots@)[j as int]));
        assert forall|k: int| 0 <= k < n && k != j implies #[trigger] slots_model(slots@)[k] == before[k] by {}
        assert forall|k: int| 0 <= k < n implies (match #[trigger] slots_model(slots@)[k] {
            Some(c) => c.wf(),
            None => true,
        }) by {
            if k != j {
                assert(slots_model(slots@)[k] == before[k]);
            }
        }
        assert(all_empty ==> slots@[j as int] is None);
        assert(!all_empty ==> (!old_all || slots@[j as int] is Some));
        assert forall|k: int| 0 <= k < n && k != j implies #[trigger] slots@[k] == old_slots[k] by {}
        assert(all_empty == forall|k: int| 0 <= k < j + 1 ==> #[trigger] slots@[k] is None) by {
            if !all_empty && !old_all {
                let k: int = choose|k: int| 0 <= k < j && !(#[trigger] old_slots[k] is None);
                assert(slots@[k] == old_slots[k]);
            }
        }
        assert(slots_model(slots@).subrange(j + 1, n as int) =~= orig.subrange(j + 1, n as int));
        j = j + 1;
    }
    assert(slots_model(slots@).subrange(0, n as int) =~= slots_model(slots@));
    assert(all_empty == forall|k: int| 0 <= k < n ==> #[trigger] slots_model(slots@)[k] is None) by {
        if !all_empty {
            let k: int = choose|k: int| 0 <= k < n && !(#[trigger] slots@[k] is None);
            assert(!(slots_model(slots@)[k] is None));
        }
    }
    assert(orig.subrange(n as int, n as int) =~= Seq::<Option<CursorModel<A, S>>>::empty());
    if n == 0 {
        return (Status::Success, e.delta());
    }
    if all_empty {
        let leftover: u64 = match best {
            Some(b) => b,
            None => e.delta(),
        };
        (Status::Success, leftover)
    } else {
        (Status::Running, 0)
    }
}

} // verus!
