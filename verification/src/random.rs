//! Random search: the unguided baseline. Every round starts again from the
//! input as it was found; nothing that an execution reports changes where
//! the next round starts.

use crate::search::{
    answer_view, asks_execution, copy_bytes, stop_asserted, Action, ActionView, Event, EventView,
    Mutation, Phase,
};
use vstd::prelude::*;

verus! {

/// The state of a random search.
pub struct RandomState {
    pub phase: Phase,
    /// Whether a randomization may draw on the dictionary.
    pub enable_dict: bool,
    /// The tainted-region value of the input as it was found.
    pub initial: Seq<u8>,
}

impl RandomState {
    /// One step of the search: the state after `event`, and the answer to
    /// the driver, which is `None` where the event is not the one awaited
    /// (the state is then unchanged).
    ///
    /// Each round asks the stop predicate first. On stop the search ends
    /// and writes nothing back; otherwise the input as found is randomized
    /// and executed, and what the run discovered is passed on for the
    /// dictionary, whatever `enable_dict` says.
    pub open spec fn step(self, event: EventView) -> (RandomState, Option<ActionView>) {
        match (self.phase, event) {
            (Phase::Ready, EventView::Begin) => (
                RandomState { phase: Phase::Polling, ..self },
                Some(ActionView::Poll { fold: Seq::empty() }),
            ),
            (Phase::Polling, EventView::Polled { stopped }) => if stopped {
                (
                    RandomState { phase: Phase::Done, ..self },
                    Some(ActionView::Finish { binding: None }),
                )
            } else {
                (
                    RandomState { phase: Phase::Mutating, ..self },
                    Some(
                        ActionView::Execute {
                            value: self.initial,
                            mutation: Mutation::Randomize { enable_dict: self.enable_dict },
                        },
                    ),
                )
            },
            (Phase::Mutating, EventView::Executed { fitness, value, discovered }) => (
                RandomState { phase: Phase::Polling, ..self },
                Some(ActionView::Poll { fold: discovered }),
            ),
            _ => (self, None),
        }
    }
}

impl RandomState {
    /// The number of executions that the search asks for in the course of
    /// `events`.
    pub open spec fn executions(self, events: Seq<EventView>) -> nat
        decreases events.len(),
    {
        if events.len() == 0 {
            0
        } else {
            let (next, answer) = self.step(events.first());
            next.executions(events.drop_first()) + if asks_execution(answer) {
                1nat
            } else {
                0nat
            }
        }
    }

    /// The number of executions that the search may still ask for before it
    /// asks the stop predicate again: none, since every execution follows a
    /// question to the stop predicate.
    pub open spec fn executions_before_poll(self) -> nat {
        0
    }
}

/// Stop responsiveness: while the stop signal is asserted, the search asks
/// for no execution beyond those that still stand before its next question
/// to the stop predicate, and so for one at most.
pub proof fn lemma_stop_responsive(state: RandomState, events: Seq<EventView>)
    requires
        stop_asserted(events),
    ensures
        state.executions(events) <= state.executions_before_poll(),
        state.executions(events) == 0,
    decreases events.len(),
{
    if events.len() > 0 {
        let rest = events.drop_first();
        assert(stop_asserted(rest)) by {
            assert forall|k: int| 0 <= k < rest.len() implies (
            (#[trigger] rest[k]) matches EventView::Polled { stopped } ==> stopped) by {
                assert(rest[k] == events[k + 1]);
            }
        }
        assert(events.first() == events[0]);
        lemma_stop_responsive(state.step(events.first()).0, rest);
    }
}

/// A random search over one predicate.
pub struct RandomSearch {
    phase: Phase,
    enable_dict: bool,
    orig_input_val: Vec<u8>,
}

impl View for RandomSearch {
    type V = RandomState;

    closed spec fn view(&self) -> RandomState {
        RandomState {
            phase: self.phase,
            enable_dict: self.enable_dict,
            initial: self.orig_input_val@,
        }
    }
}

impl RandomSearch {
    /// A search that has not started, for an input whose tainted region
    /// holds `input`.
    pub fn new(input: Vec<u8>, enable_dict: bool) -> (search: RandomSearch)
        ensures
            search@ == (RandomState { phase: Phase::Ready, enable_dict, initial: input@ }),
    {
        RandomSearch { phase: Phase::Ready, enable_dict, orig_input_val: input }
    }

    /// Takes the search one step on: see [`RandomState::step`].
    pub fn run(&mut self, event: Event) -> (answer: Option<Action>)
        ensures
            (final(self)@, answer_view(answer)) == old(self)@.step(event@),
            old(self)@.phase == Phase::Done ==> answer is None,
            event@ == (EventView::Polled { stopped: true }) && old(self)@.phase
                == Phase::Polling ==> final(self)@.phase == Phase::Done && answer_view(answer)
                == Some(ActionView::Finish { binding: None }),
    {
        match event {
            Event::Begin => {
                if self.phase == Phase::Ready {
                    self.phase = Phase::Polling;
                    Some(Action::Poll { fold: Vec::new() })
                } else {
                    None
                }
            },
            Event::Executed { fitness, value, discovered } => {
                if self.phase == Phase::Mutating {
                    self.phase = Phase::Polling;
                    Some(Action::Poll { fold: discovered })
                } else {
                    None
                }
            },
            Event::Polled { stopped } => {
                if self.phase == Phase::Polling {
                    if stopped {
                        self.phase = Phase::Done;
                        Some(Action::Finish { binding: None })
                    } else {
                        self.phase = Phase::Mutating;
                        Some(
                            Action::Execute {
                                value: copy_bytes(&self.orig_input_val),
                                mutation: Mutation::Randomize { enable_dict: self.enable_dict },
                            },
                        )
                    }
                } else {
                    None
                }
            },
        }
    }
}

} // verus!
