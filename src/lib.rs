//! Evaluation engine for behavior trees.
//!
//! An [`Event`] tree describes a behavior; a [`Cursor`] spawned from it keeps
//! track of where in that behavior a run currently is. Each call of
//! [`Cursor::update`] feeds one host [`Input`] to the cursor and reports a
//! [`Status`] together with the part of the tick's time that was not used.
//!
//! Time is counted in whole units of the host's choosing (for example
//! microseconds), so that leftover time is accounted for exactly.

mod action;
mod cursor;
mod event;
mod laws;
mod semantics;
mod status;

pub use action::{StartState, Step};
pub use cursor::{slots_model, Cursor};
pub use event::{depth_of_all, max_nat, Event};
pub use laws::{
    all_report, conserves_time, leftover_in_turn, lemma_invert_involution, lemma_leaf_propagation,
    lemma_select_all_fail, lemma_select_instant_input, lemma_select_update_cascade,
    lemma_sequence_all_succeed, lemma_sequence_instant_input, lemma_spawn_double_invert,
    lemma_time_conservation, lemma_when_all_fail_fast, lemma_when_all_keeps_slots, lemma_when_all_vacuous, trace,
};
pub use semantics::{
    inverted, passed_on, rank_of_slots, select_from, sequence_from, spawn, spawn_all, spawn_at, tick,
    when_all_from, while_from, CursorModel,
};
pub use status::{Input, Key, Status};
