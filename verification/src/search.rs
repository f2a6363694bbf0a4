//! What the search strategies share. A strategy is a state machine: the
//! driver hands it what it has observed, and the strategy answers with what
//! the driver is to do next. The strategy never runs the target itself.

use crate::cond::SCond;
use vstd::prelude::*;
use vstd::slice::slice_to_vec;

verus! {

/// Where a strategy stands between two calls.
#[derive(Clone, Copy, Debug, PartialEq, Eq, Structural)]
pub enum Phase {
    /// Made, and not started yet.
    Ready,
    /// Waiting for the execution of the input as it was found.
    Probing,
    /// Waiting for the execution of the recorded variable binding.
    Planting,
    /// Waiting for the answer of the stop predicate.
    Polling,
    /// Waiting for the execution of a randomized candidate.
    Mutating,
    /// Stopped for good.
    Done,
}

/// What the driver does to a candidate before it executes it.
#[derive(Clone, Copy, Debug, PartialEq, Eq, Structural)]
pub enum Mutation {
    /// Nothing: the candidate runs with the value it was given.
    Keep,
    /// One full randomization of the tainted region. Where `enable_dict`
    /// holds, the randomization may draw whole tokens from the shared
    /// dictionary; where it does not, only boundary values and random
    /// bytes.
    Randomize { enable_dict: bool },
}

/// What the driver reports to a strategy.
#[derive(Debug, PartialEq, Eq)]
pub enum Event {
    /// The driver is ready for its first instruction.
    Begin,
    /// The candidate was executed: the distance it reached (lower is
    /// better), the tainted-region value it held when it ran, and the
    /// records of the comparison tokens that the run discovered.
    Executed { fitness: u64, value: Vec<u8>, discovered: Vec<SCond> },
    /// The stop predicate was asked and gave this answer.
    Polled { stopped: bool },
}

/// What a strategy tells the driver to do next.
#[derive(Debug, PartialEq, Eq)]
pub enum Action {
    /// Set the tainted region to `value`, do to it what `mutation` says,
    /// execute the candidate, and report `Executed`.
    Execute { value: Vec<u8>, mutation: Mutation },
    /// Fold the records `fold`, if there are any, into the shared
    /// dictionary; then ask the stop predicate and report `Polled`.
    Poll { fold: Vec<SCond> },
    /// The search is over. Where `binding` holds a value, write it back as
    /// the predicate's variable binding.
    Finish { binding: Option<Vec<u8>> },
}

/// An event with its byte strings and lists as sequences.
pub enum EventView {
    Begin,
    Executed { fitness: u64, value: Seq<u8>, discovered: Seq<SCond> },
    Polled { stopped: bool },
}

/// An action with its byte strings and lists as sequences.
pub enum ActionView {
    Execute { value: Seq<u8>, mutation: Mutation },
    Poll { fold: Seq<SCond> },
    Finish { binding: Option<Seq<u8>> },
}

impl View for Event {
    type V = EventView;

    open spec fn view(&self) -> EventView {
        match *self {
            Event::Begin => EventView::Begin,
            Event::Executed { fitness, value, discovered } => EventView::Executed {
                fitness,
                value: value@,
                discovered: discovered@,
            },
            Event::Polled { stopped } => EventView::Polled { stopped },
        }
    }
}

impl View for Action {
    type V = ActionView;

    open spec fn view(&self) -> ActionView {
        match *self {
            Action::Execute { value, mutation } => ActionView::Execute {
                value: value@,
                mutation,
            },
            Action::Poll { fold } => ActionView::Poll { fold: fold@ },
            Action::Finish { binding } => ActionView::Finish {
                binding: match binding {
                    Some(bytes) => Some(bytes@),
                    None => None,
                },
            },
        }
    }
}

/// The view of an answer: `None` where the strategy refused the event.
pub open spec fn answer_view(answer: Option<Action>) -> Option<ActionView> {
    match answer {
        Some(action) => Some(action@),
        None => None,
    }
}

/// Whether an answer tells the driver to execute a candidate.
pub open spec fn asks_execution(answer: Option<ActionView>) -> bool {
    answer matches Some(ActionView::Execute { .. })
}

/// The stop signal is asserted for the whole of `events`: every answer of
/// the stop predicate among them is a stop.
pub open spec fn stop_asserted(events: Seq<EventView>) -> bool {
    forall|k: int|
        0 <= k < events.len() ==> ((#[trigger] events[k]) matches EventView::Polled { stopped }
            ==> stopped)
}

/// A copy of a byte string.
pub(crate) fn copy_bytes(bytes: &Vec<u8>) -> (copy: Vec<u8>)
    ensures
        copy@ == bytes@,
{
    slice_to_vec(bytes.as_slice())
}

} // verus!
