//! Magic-bytes search: the recorded variable binding is planted and executed
//! once, whatever comes of it; then the search randomizes as random search
//! does.

use crate::search::{
    answer_view, asks_execution, copy_bytes, stop_asserted, Action, ActionView, Event, EventView,
    Mutation, Phase,
};
use vstd::prelude::*;

verus! {

/// The state of a magic-bytes search.
pub struct MbState {
    pub phase: Phase,
    /// Whether a randomization may draw on the dictionary.
    pub enable_dict: bool,
    /// The tainted-region value of the input as it was found.
    pub initial: Seq<u8>,
    /// The variable binding recorded for the predicate.
    pub binding: Seq<u8>,
}

impl MbState {
    /// One step of the search: the state after `event`, and the answer to
    /// the driver, which is `None` where the event is not the one awaited
    /// (the state is then unchanged).
    ///
    /// The recorded binding is executed first; the distance it reaches is
    /// not looked at, and what the run discovered is passed on for the
    /// dictionary. Then each round asks the stop predicate. On stop the
    /// search ends and writes nothing back; otherwise the input as found is
    /// randomized and executed, and what the run discovered is passed on
    /// for the dictionary, whatever `enable_dict` says.
    pub open spec fn step(self, event: EventView) -> (MbState, Option<ActionView>) {
        match (self.phase, event) {
            (Phase::Ready, EventView::Begin) => (
                MbState { phase: Phase::Planting, ..self },
                Some(ActionView::Execute { value: self.binding, mutation: Mutation::Keep }),
            ),
            (Phase::Planting, EventView::Executed { fitness, value, discovered }) => (
                MbState { phase: Phase::Polling, ..self },
                Some(ActionView::Poll { fold: discovered }),
            ),
            (Phase::Polling, EventView::Polled { stopped }) => if stopped {
                (
                    MbState { phase: Phase::Done, ..self },
                    Some(ActionView::Finish { binding: None }),
                )
            } else {
                (
                    MbState { phase: Phase::Mutating, ..self },
                    Some(
                        ActionView::Execute {
                            value: self.initial,
                            mutation: Mutation::Randomize { enable_dict: self.enable_dict },
                        },
                    ),
                )
            },
            (Phase::Mutating, EventView::Executed { fitness, value, discovered }) => (
                MbState { phase: Phase::Polling, ..self },
                Some(ActionView::Poll { fold: discovered }),
            ),
            _ => (self, None),
        }
    }
}

impl MbState {
    /// The number of executions that the search asks for in the course of
    /// `events`.
    pub open spec fn executions(self, events: Seq<EventView>) -> nat
        decreases events.len(),
    {
        if events.len() == 0 {
            0
        } else {
            let (next, answer) = self.step(events.first());
            next.executions(events.drop_first()) + if asks_execution(answer) {
                1nat
            } else {
                0nat
            }
        }
    }

    /// The number of executions that the search may still ask for before it
    /// asks the stop predicate again: the execution of the recorded binding
    /// while the search has not started, and none from then on.
    pub open spec fn executions_before_poll(self) -> nat {
        match self.phase {
            Phase::Ready => 1,
            _ => 0,
        }
    }
}

/// Stop responsiveness: while the stop signal is asserted, the search asks
/// for no execution beyond those that still stand before its next question
/// to the stop predicate, and so for one at most.
pub proof fn lemma_stop_responsive(state: MbState, events: Seq<EventView>)
    requires
        stop_asserted(events),
    ensures
        state.executions(events) <= state.executions_before_poll(),
        state.executions(events) <= 1,
    decreases events.len(),
{
    if events.len() > 0 {
        let rest = events.drop_first();
        assert(stop_asserted(rest)) by {
            assert forall|k: int| 0 <= k < rest.len() implies (
            (#[trigger] rest[k]) matches EventView::Polled { stopped } ==> stopped) by {
                assert(rest[k] == events[k + 1]);
            }
        }
        assert(events.first() == events[0]);
        lemma_stop_responsive(state.step(events.first()).0, rest);
    }
}

/// A magic-bytes search over one predicate.
pub struct MbSearch {
    phase: Phase,
    enable_dict: bool,
    orig_input_val: Vec<u8>,
    variables: Vec<u8>,
}

impl View for MbSearch {
    type V = MbState;

    closed spec fn view(&self) -> MbState {
        MbState {
            phase: self.phase,
            enable_dict: self.enable_dict,
            initial: self.orig_input_val@,
            binding: self.variables@,
        }
    }
}

impl MbSearch {
    /// A search that has not started, for an input whose tainted region
    /// holds `input` and a predicate whose recorded binding is `variables`.
    /// The tainted region must not be empty.
    pub fn new(input: Vec<u8>, variables: Vec<u8>, enable_dict: bool) -> (search: MbSearch)
        requires
            input@.len() > 0,
        ensures
            search@ == (MbState {
                phase: Phase::Ready,
                enable_dict,
                initial: input@,
                binding: variables@,
            }),
    {
        MbSearch { phase: Phase::Ready, enable_dict, orig_input_val: input, variables }
    }

    /// Takes the search one step on: see [`MbState::step`].
    pub fn run(&mut self, event: Event) -> (answer: Option<Action>)
        ensures
            (final(self)@, answer_view(answer)) == old(self)@.step(event@),
            old(self)@.phase == Phase::Done ==> answer is None,
            event@ == (EventView::Polled { stopped: true }) && old(self)@.phase
                == Phase::Polling ==> final(self)@.phase == Phase::Done && answer_view(answer)
                == Some(ActionView::Finish { binding: None }),
    {
        match event {
            Event::Begin => {
                if self.phase == Phase::Ready {
                    self.phase = Phase::Planting;
                    Some(
                        Action::Execute {
                            value: copy_bytes(&self.variables),
                            mutation: Mutation::Keep,
                        },
                    )
                } else {
                    None
                }
            },
            Event::Executed { fitness, value, discovered } => {
                if self.phase == Phase::Planting || self.phase == Phase::Mutating {
                    self.phase = Phase::Polling;
                    Some(Action::Poll { fold: discovered })
                } else {
                    None
                }
            },
            Event::Polled { stopped } => {
                if self.phase == Phase::Polling {
                    if stopped {
                        self.phase = Phase::Done;
                        Some(Action::Finish { binding: None })
                    } else {
                        self.phase = Phase::Mutating;
                        Some(
                            Action::Execute {
                                value: copy_bytes(&self.orig_input_val),
                                mutation: Mutation::Randomize { enable_dict: self.enable_dict },
                            },
                        )
                    }
                } else {
                    None
                }
            },
        }
    }
}

} // verus!
