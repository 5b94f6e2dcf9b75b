use ai_behavior::{Cursor, Event, Input, Key, StartState, Status, Step};

/// Leaf actions used by the tests.
#[derive(Clone, Copy, Debug)]
enum Act {
    /// Fails at once and hands back all of its time.
    FailNow,
    /// Succeeds at once and hands back all of its time.
    SucceedNow,
    /// Runs until it has seen this much time, counting in its state.
    Count(u64),
}

impl StartState<u64> for Act {
    fn initial(&self) -> u64 {
        0
    }

    fn start_state(&self) -> u64 {
        self.initial()
    }
}

struct Host;

impl Step<Act, u64> for Host {
    fn outcome(&self, dt: u64, action: Act, state: u64) -> (Status, u64, u64) {
        match action {
            Act::FailNow => (Status::Failure, dt, state),
            Act::SucceedNow => (Status::Success, dt, state),
            Act::Count(n) => {
                if state + dt >= n {
                    (Status::Success, state + dt - n, n)
                } else {
                    (Status::Running, 0, state + dt)
                }
            }
        }
    }

    fn step(&self, dt: u64, action: &Act, state: &mut u64) -> (Status, u64) {
        let (status, left, next) = self.outcome(dt, *action, *state);
        *state = next;
        (status, left)
    }
}

const KEY_A: Key = Key { code: 0x61 };
const KEY_B: Key = Key { code: 0x62 };

fn tick(c: &mut Cursor<'_, Act, u64>, input: Input) -> (Status, u64) {
    c.update(&input, &Host)
}

#[test]
fn wait_runs_then_succeeds_with_leftover() {
    let e: Event<Act> = Event::Wait(1000);
    let mut c = e.to_cursor();
    assert_eq!(tick(&mut c, Input::Update(400)), (Status::Running, 0));
    assert_eq!(tick(&mut c, Input::Update(800)), (Status::Success, 200));
}

#[test]
fn wait_exact_target_leaves_nothing() {
    let e: Event<Act> = Event::Wait(500);
    let mut c = e.to_cursor();
    assert_eq!(tick(&mut c, Input::Update(500)), (Status::Success, 0));
}

#[test]
fn wait_ignores_key_presses() {
    let e: Event<Act> = Event::Wait(10);
    let mut c = e.to_cursor();
    assert_eq!(tick(&mut c, Input::KeyPress(KEY_A)), (Status::Running, 0));
    assert_eq!(tick(&mut c, Input::Other), (Status::Running, 0));
}

#[test]
fn invert_wait_fails_with_leftover() {
    let e: Event<Act> = Event::Invert(Box::new(Event::Wait(500)));
    let mut c = e.to_cursor();
    assert_eq!(tick(&mut c, Input::Update(1000)), (Status::Failure, 500));
}

#[test]
fn double_invert_behaves_like_inner() {
    let e: Event<Act> = Event::Invert(Box::new(Event::Invert(Box::new(Event::Wait(500)))));
    let mut c = e.to_cursor();
    assert_eq!(tick(&mut c, Input::Update(300)), (Status::Running, 0));
    assert_eq!(tick(&mut c, Input::Update(300)), (Status::Success, 100));
}

#[test]
fn sequence_of_waits_in_one_tick() {
    let e: Event<Act> = Event::Sequence(vec![Event::Wait(500), Event::Wait(500)]);
    let mut c = e.to_cursor();
    assert_eq!(tick(&mut c, Input::Update(1200)), (Status::Success, 200));
}

#[test]
fn sequence_fails_on_first_failure() {
    let e = Event::Sequence(vec![Event::Wait(100), Event::Action(Act::FailNow), Event::Wait(100)]);
    let mut c = e.to_cursor();
    assert_eq!(tick(&mut c, Input::Update(250)), (Status::Failure, 150));
}

#[test]
fn select_passes_leftover_of_failed_child() {
    let e = Event::Select(vec![Event::Action(Act::FailNow), Event::Wait(200)]);
    let mut c = e.to_cursor();
    assert_eq!(tick(&mut c, Input::Update(300)), (Status::Success, 100));
}

#[test]
fn select_all_failing_fails_with_last_leftover() {
    let e = Event::Select(vec![Event::Action(Act::FailNow), Event::Action(Act::FailNow)]);
    let mut c = e.to_cursor();
    assert_eq!(tick(&mut c, Input::Update(70)), (Status::Failure, 70));
}

#[test]
fn sequence_does_not_pass_key_press_on() {
    let e: Event<Act> = Event::Sequence(vec![Event::KeyPressed(KEY_A), Event::KeyPressed(KEY_A)]);
    let mut c = e.to_cursor();
    assert_eq!(tick(&mut c, Input::KeyPress(KEY_A)), (Status::Running, 0));
    match &c {
        Cursor::SequenceCursor(_, i, _) => assert_eq!(*i, 0),
        _ => panic!("expected a sequence cursor"),
    }
}

#[test]
fn sequence_last_child_key_press_succeeds() {
    let e: Event<Act> = Event::Sequence(vec![Event::KeyPressed(KEY_B)]);
    let mut c = e.to_cursor();
    assert_eq!(tick(&mut c, Input::KeyPress(KEY_A)), (Status::Running, 0));
    assert_eq!(tick(&mut c, Input::KeyPress(KEY_B)), (Status::Success, 0));
}

#[test]
fn select_passes_failed_key_press_on() {
    let e: Event<Act> = Event::Select(vec![
        Event::Invert(Box::new(Event::KeyPressed(KEY_A))),
        Event::KeyPressed(KEY_A),
    ]);
    let mut c = e.to_cursor();
    assert_eq!(tick(&mut c, Input::KeyPress(KEY_A)), (Status::Success, 0));
}

#[test]
fn key_pressed_matches_only_its_key() {
    let e: Event<Act> = Event::KeyPressed(KEY_A);
    let mut c = e.to_cursor();
    assert_eq!(tick(&mut c, Input::KeyPress(KEY_B)), (Status::Running, 0));
    assert_eq!(tick(&mut c, Input::Update(5)), (Status::Running, 0));
    assert_eq!(tick(&mut c, Input::KeyPress(KEY_A)), (Status::Success, 0));
}

#[test]
fn action_gets_update_and_keeps_state() {
    let e = Event::Action(Act::Count(100));
    let mut c = e.to_cursor();
    assert_eq!(tick(&mut c, Input::Update(60)), (Status::Running, 0));
    assert_eq!(tick(&mut c, Input::KeyPress(KEY_A)), (Status::Running, 0));
    assert_eq!(tick(&mut c, Input::Update(60)), (Status::Success, 20));
}

#[test]
fn when_all_takes_least_leftover() {
    let e: Event<Act> = Event::WhenAll(vec![Event::Wait(400), Event::Wait(700)]);
    let mut c = e.to_cursor();
    assert_eq!(tick(&mut c, Input::Update(1000)), (Status::Success, 300));
}

#[test]
fn when_all_runs_until_all_done() {
    let e: Event<Act> = Event::WhenAll(vec![Event::Wait(400), Event::Wait(700)]);
    let mut c = e.to_cursor();
    assert_eq!(tick(&mut c, Input::Update(500)), (Status::Running, 0));
    assert_eq!(tick(&mut c, Input::Update(500)), (Status::Success, 300));
}

#[test]
fn when_all_empty_on_key_press() {
    let e: Event<Act> = Event::WhenAll(vec![]);
    let mut c = e.to_cursor();
    assert_eq!(tick(&mut c, Input::KeyPress(KEY_A)), (Status::Success, 0));
}

#[test]
fn when_all_empty_on_update() {
    let e: Event<Act> = Event::WhenAll(vec![]);
    let mut c = e.to_cursor();
    assert_eq!(tick(&mut c, Input::Update(42)), (Status::Success, 42));
}

#[test]
fn when_all_fails_fast() {
    let e = Event::WhenAll(vec![Event::Wait(10), Event::Action(Act::FailNow), Event::Wait(5)]);
    let mut c = e.to_cursor();
    assert_eq!(tick(&mut c, Input::Update(30)), (Status::Failure, 30));
}

#[test]
fn while_runs_until_condition_ends() {
    let e = Event::While(Box::new(Event::Wait(2000)), vec![Event::Action(Act::SucceedNow)]);
    let mut c = e.to_cursor();
    assert_eq!(tick(&mut c, Input::Update(600)), (Status::Running, 0));
    assert_eq!(tick(&mut c, Input::Update(600)), (Status::Running, 0));
    assert_eq!(tick(&mut c, Input::Update(600)), (Status::Running, 0));
    assert_eq!(tick(&mut c, Input::Update(600)), (Status::Success, 400));
}

#[test]
fn while_body_position_cycles() {
    let e: Event<Act> = Event::While(Box::new(Event::Wait(10_000)), vec![Event::Wait(300), Event::Wait(300)]);
    let mut c = e.to_cursor();
    let mut seen = Vec::new();
    for _ in 0..6 {
        assert_eq!(tick(&mut c, Input::Update(200)), (Status::Running, 0));
        match &c {
            Cursor::WhileCursor(_, _, i, _) => seen.push(*i),
            _ => panic!("expected a while cursor"),
        }
    }
    assert_eq!(seen, vec![0, 1, 0, 0, 1, 0]);
}

#[test]
fn while_body_failure_ends_loop() {
    let e = Event::While(Box::new(Event::Wait(1000)), vec![Event::Wait(100), Event::Action(Act::FailNow)]);
    let mut c = e.to_cursor();
    assert_eq!(tick(&mut c, Input::Update(150)), (Status::Failure, 50));
}

#[test]
fn while_condition_failure_ends_loop() {
    let e: Event<Act> = Event::While(
        Box::new(Event::Invert(Box::new(Event::Wait(100)))),
        vec![Event::Wait(1000)],
    );
    let mut c = e.to_cursor();
    assert_eq!(tick(&mut c, Input::Update(130)), (Status::Failure, 30));
}

#[test]
fn validity_requires_children() {
    let empty_select: Event<Act> = Event::Select(vec![]);
    assert!(!empty_select.is_valid());
    let empty_sequence: Event<Act> = Event::Sequence(vec![]);
    assert!(!empty_sequence.is_valid());
    let empty_body: Event<Act> = Event::While(Box::new(Event::Wait(1)), vec![]);
    assert!(!empty_body.is_valid());
    let nested: Event<Act> = Event::WhenAll(vec![Event::Invert(Box::new(Event::Select(vec![])))]);
    assert!(!nested.is_valid());
    let empty_when_all: Event<Act> = Event::WhenAll(vec![]);
    assert!(empty_when_all.is_valid());
    let good = Event::While(
        Box::new(Event::Wait(1)),
        vec![Event::Sequence(vec![Event::Action(Act::SucceedNow)]), Event::KeyPressed(KEY_A)],
    );
    assert!(good.is_valid());
}

#[test]
fn input_delta_is_update_time_only() {
    assert_eq!(Input::Update(17).delta(), 17);
    assert_eq!(Input::KeyPress(KEY_A).delta(), 0);
    assert_eq!(Input::Other.delta(), 0);
}

#[test]
fn other_inputs_take_no_time() {
    let e = Event::Sequence(vec![Event::Action(Act::Count(10)), Event::Wait(5)]);
    let mut c = e.to_cursor();
    assert_eq!(tick(&mut c, Input::Other), (Status::Running, 0));
    assert_eq!(tick(&mut c, Input::Update(12)), (Status::Running, 0));
    assert_eq!(tick(&mut c, Input::Update(3)), (Status::Success, 0));
}

#[test]
fn select_fails_after_last_child_on_key_press() {
    let e: Event<Act> = Event::Select(vec![
        Event::Invert(Box::new(Event::KeyPressed(KEY_A))),
        Event::Invert(Box::new(Event::KeyPressed(KEY_A))),
    ]);
    let mut c = e.to_cursor();
    assert_eq!(tick(&mut c, Input::KeyPress(KEY_A)), (Status::Failure, 0));
}

#[test]
fn sequence_all_succeeding_leaves_last_leftover() {
    let e = Event::Sequence(vec![
        Event::Action(Act::Count(10)),
        Event::Action(Act::SucceedNow),
        Event::Wait(20),
    ]);
    let mut c = e.to_cursor();
    assert_eq!(tick(&mut c, Input::Update(45)), (Status::Success, 15));
}

#[test]
fn when_all_masks_later_success_after_failure() {
    let e = Event::WhenAll(vec![
        Event::Wait(100),
        Event::Invert(Box::new(Event::Wait(10))),
        Event::Action(Act::SucceedNow),
    ]);
    let mut c = e.to_cursor();
    assert_eq!(tick(&mut c, Input::Update(40)), (Status::Failure, 30));
}

#[test]
fn when_all_with_key_children() {
    let e: Event<Act> = Event::WhenAll(vec![Event::KeyPressed(KEY_A), Event::KeyPressed(KEY_B)]);
    let mut c = e.to_cursor();
    assert_eq!(tick(&mut c, Input::KeyPress(KEY_A)), (Status::Running, 0));
    assert_eq!(tick(&mut c, Input::KeyPress(KEY_B)), (Status::Success, 0));
}

#[test]
fn while_lap_without_time_stops_running() {
    let e = Event::While(
        Box::new(Event::Wait(100)),
        vec![Event::Action(Act::SucceedNow), Event::Wait(0)],
    );
    let mut c = e.to_cursor();
    assert_eq!(tick(&mut c, Input::Update(60)), (Status::Running, 0));
    assert_eq!(tick(&mut c, Input::Update(60)), (Status::Success, 20));
}

#[test]
fn while_key_press_consumed_by_body_child() {
    let e: Event<Act> = Event::While(
        Box::new(Event::Wait(100)),
        vec![Event::KeyPressed(KEY_A), Event::KeyPressed(KEY_A)],
    );
    let mut c = e.to_cursor();
    assert_eq!(tick(&mut c, Input::KeyPress(KEY_A)), (Status::Running, 0));
    match &c {
        Cursor::WhileCursor(_, _, i, _) => assert_eq!(*i, 0),
        _ => panic!("expected a while cursor"),
    }
}

#[test]
fn large_times_do_not_overflow() {
    let e: Event<Act> = Event::Sequence(vec![Event::Wait(u64::MAX), Event::Wait(1)]);
    let mut c = e.to_cursor();
    assert_eq!(tick(&mut c, Input::Update(u64::MAX - 1)), (Status::Running, 0));
    assert_eq!(tick(&mut c, Input::Update(u64::MAX)), (Status::Success, u64::MAX - 2));
}
