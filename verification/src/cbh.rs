//! Hill climbing: first-improvement local search on the distance that the
//! target reports for a candidate.

use crate::search::{
    answer_view, asks_execution, copy_bytes, stop_asserted, Action, ActionView, Event, EventView,
    Mutation, Phase,
};
use vstd::prelude::*;

verus! {

/// The state of a hill-climbing search.
pub struct CbhState {
    pub phase: Phase,
    /// Whether a randomization may draw on the dictionary.
    pub enable_dict: bool,
    /// The tainted-region value of the input as it was found.
    pub initial: Seq<u8>,
    /// The variable binding recorded for the predicate.
    pub binding: Seq<u8>,
    /// The distance of the incumbent, once there is one.
    pub fmin: u64,
    /// The incumbent: the value with the lowest distance so far.
    pub incumbent: Seq<u8>,
}

impl CbhState {
    /// Whether an execution has been evaluated, so that there is an
    /// incumbent.
    pub open spec fn has_incumbent(self) -> bool {
        self.phase != Phase::Ready && self.phase != Phase::Probing
    }

    /// The state after a candidate with distance `fitness` and value `value`
    /// was evaluated: it replaces the incumbent only if its distance is
    /// strictly lower.
    pub open spec fn improve(self, fitness: u64, value: Seq<u8>) -> CbhState {
        if fitness < self.fmin {
            CbhState { fmin: fitness, incumbent: value, ..self }
        } else {
            self
        }
    }

    /// One step of the search: the state after `event`, and the answer to
    /// the driver, which is `None` where the event is not the one awaited
    /// (the state is then unchanged).
    ///
    /// The input as found is executed and becomes the incumbent. If the
    /// recorded binding is as long as the tainted region, it is executed
    /// too and evaluated against the incumbent. From then on each round
    /// asks the stop predicate; on stop the incumbent is handed back for
    /// the binding; otherwise the incumbent is randomized, executed and
    /// evaluated, and what the run discovered is passed on for the
    /// dictionary, whether the candidate was adopted or not and whatever
    /// `enable_dict` says. Of the two runs before the rounds only the
    /// distance is used.
    pub open spec fn step(self, event: EventView) -> (CbhState, Option<ActionView>) {
        match (self.phase, event) {
            (Phase::Ready, EventView::Begin) => (
                CbhState { phase: Phase::Probing, ..self },
                Some(ActionView::Execute { value: self.initial, mutation: Mutation::Keep }),
            ),
            (Phase::Probing, EventView::Executed { fitness, value, discovered }) => {
                let first = CbhState { fmin: fitness, incumbent: value, ..self };
                if self.binding.len() == self.initial.len() {
                    (
                        CbhState { phase: Phase::Planting, ..first },
                        Some(
                            ActionView::Execute { value: self.binding, mutation: Mutation::Keep },
                        ),
                    )
                } else {
                    (
                        CbhState { phase: Phase::Polling, ..first },
                        Some(ActionView::Poll { fold: Seq::empty() }),
                    )
                }
            },
            (Phase::Planting, EventView::Executed { fitness, value, discovered }) => (
                CbhState { phase: Phase::Polling, ..self.improve(fitness, value) },
                Some(ActionView::Poll { fold: Seq::empty() }),
            ),
            (Phase::Polling, EventView::Polled { stopped }) => if stopped {
                (
                    CbhState { phase: Phase::Done, ..self },
                    Some(ActionView::Finish { binding: Some(self.incumbent) }),
                )
            } else {
                (
                    CbhState { phase: Phase::Mutating, ..self },
                    Some(
                        ActionView::Execute {
                            value: self.incumbent,
                            mutation: Mutation::Randomize { enable_dict: self.enable_dict },
                        },
                    ),
                )
            },
            (Phase::Mutating, EventView::Executed { fitness, value, discovered }) => (
                CbhState { phase: Phase::Polling, ..self.improve(fitness, value) },
                Some(ActionView::Poll { fold: discovered }),
            ),
            _ => (self, None),
        }
    }
}

impl CbhState {
    /// The state after the events `events`, taken in order.
    pub open spec fn after(self, events: Seq<EventView>) -> CbhState
        decreases events.len(),
    {
        if events.len() == 0 {
            self
        } else {
            self.after(events.drop_last()).step(events.last()).0
        }
    }

    /// Whether the state is waiting for an execution whose result it will
    /// evaluate.
    pub open spec fn evaluating(self) -> bool {
        self.phase == Phase::Probing || self.phase == Phase::Planting || self.phase
            == Phase::Mutating
    }

    /// The candidates that were evaluated in the course of `events`, each
    /// with its distance and its value, in the order of their execution.
    pub open spec fn trials(self, events: Seq<EventView>) -> Seq<(u64, Seq<u8>)>
        decreases events.len(),
    {
        if events.len() == 0 {
            Seq::empty()
        } else {
            let earlier = self.trials(events.drop_last());
            match events.last() {
                EventView::Executed { fitness, value, discovered } => if self.after(
                    events.drop_last(),
                ).evaluating() {
                    earlier.push((fitness, value))
                } else {
                    earlier
                },
                _ => earlier,
            }
        }
    }

    /// The number of executions that the search asks for in the course of
    /// `events`.
    pub open spec fn executions(self, events: Seq<EventView>) -> nat
        decreases events.len(),
    {
        if events.len() == 0 {
            0
        } else {
            let (next, answer) = self.step(events.first());
            next.executions(events.drop_first()) + if asks_execution(answer) {
                1nat
            } else {
                0nat
            }
        }
    }

    /// The number of executions that the search may still ask for before it
    /// asks the stop predicate again: none once the rounds have begun, and
    /// before that the execution of the input as found and, where the
    /// recorded binding is as long as the tainted region, that of the
    /// binding.
    pub open spec fn executions_before_poll(self) -> nat {
        let planting: nat = if self.binding.len() == self.initial.len() {
            1
        } else {
            0
        };
        match self.phase {
            Phase::Ready => 1 + planting,
            Phase::Probing => planting,
            _ => 0,
        }
    }
}

/// The index of the first trial among those with the lowest distance.
pub open spec fn first_lowest(trials: Seq<(u64, Seq<u8>)>) -> int
    decreases trials.len(),
{
    if trials.len() <= 1 {
        0
    } else {
        let earlier = first_lowest(trials.drop_last());
        if trials.last().0 < trials[earlier].0 {
            trials.len() - 1
        } else {
            earlier
        }
    }
}

/// `first_lowest` names a trial of the lowest distance, and the first such.
pub proof fn lemma_first_lowest(trials: Seq<(u64, Seq<u8>)>)
    requires
        trials.len() > 0,
    ensures
        0 <= first_lowest(trials) < trials.len(),
        forall|j: int|
            0 <= j < trials.len() ==> (#[trigger] trials[j]).0 >= trials[first_lowest(trials)].0,
        forall|j: int|
            0 <= j < first_lowest(trials) ==> (#[trigger] trials[j]).0 > trials[first_lowest(
                trials,
            )].0,
    decreases trials.len(),
{
    if trials.len() > 1 {
        let front = trials.drop_last();
        lemma_first_lowest(front);
        let p = first_lowest(front);
        assert(front[p] == trials[p]);
        assert forall|j: int| 0 <= j < trials.len() implies (#[trigger] trials[j]).0
            >= trials[first_lowest(trials)].0 by {
            if j < front.len() {
                assert(front[j] == trials[j]);
            }
        }
        assert forall|j: int| 0 <= j < first_lowest(trials) implies (#[trigger] trials[j]).0
            > trials[first_lowest(trials)].0 by {
            if j < front.len() {
                assert(front[j] == trials[j]);
            }
        }
    }
}

/// Non-regression, in full: whatever events a fresh search is given, it has
/// an incumbent as soon as one candidate was evaluated, and the incumbent is
/// then the first of the evaluated candidates that reached the lowest
/// distance. It is this incumbent that the search hands back on stop.
pub proof fn lemma_incumbent_is_first_lowest(fresh: CbhState, events: Seq<EventView>)
    requires
        fresh.phase == Phase::Ready,
    ensures
        fresh.after(events).has_incumbent() <==> fresh.trials(events).len() > 0,
        fresh.trials(events).len() > 0 ==> (
            fresh.after(events).fmin,
            fresh.after(events).incumbent,
        ) == fresh.trials(events)[first_lowest(fresh.trials(events))],
    decreases events.len(),
{
    if events.len() > 0 {
        let front = events.drop_last();
        lemma_incumbent_is_first_lowest(fresh, front);
        let earlier = fresh.trials(front);
        let trials = fresh.trials(events);
        if earlier.len() > 0 {
            lemma_first_lowest(earlier);
            if trials.len() > earlier.len() {
                assert(trials.drop_last() == earlier);
            }
        }
    }
}

/// Non-regression, at the end: the binding that a fresh search hands back on
/// stop is the value of the first of the evaluated candidates that reached
/// the lowest distance.
pub proof fn lemma_written_back_is_first_lowest(
    fresh: CbhState,
    events: Seq<EventView>,
    binding: Option<Seq<u8>>,
)
    requires
        fresh.phase == Phase::Ready,
        events.len() > 0,
        fresh.after(events.drop_last()).step(events.last()).1 == Some(
            ActionView::Finish { binding },
        ),
    ensures
        fresh.trials(events).len() > 0,
        binding == Some(fresh.trials(events)[first_lowest(fresh.trials(events))].1),
{
    lemma_incumbent_is_first_lowest(fresh, events.drop_last());
}

/// Non-regression, step by step: the distance of the incumbent never rises
/// as the events go on.
pub proof fn lemma_fitness_never_rises(state: CbhState, events: Seq<EventView>, i: int, j: int)
    requires
        0 <= i <= j <= events.len(),
        state.after(events.take(i)).has_incumbent(),
    ensures
        state.after(events.take(j)).has_incumbent(),
        state.after(events.take(j)).fmin <= state.after(events.take(i)).fmin,
    decreases j - i,
{
    if i < j {
        lemma_fitness_never_rises(state, events, i, j - 1);
        assert(events.take(j).drop_last() == events.take(j - 1));
    }
}

/// Stop responsiveness: while the stop signal is asserted, the search asks
/// for no execution beyond those that still stand before its next question
/// to the stop predicate. Once the rounds have begun that is none: the
/// execution under way is the last. Only a search that has not started, and
/// whose recorded binding is as long as the tainted region, asks for two:
/// the input as found and the binding are executed before the first
/// question.
pub proof fn lemma_stop_responsive(state: CbhState, events: Seq<EventView>)
    requires
        stop_asserted(events),
    ensures
        state.executions(events) <= state.executions_before_poll(),
        state.phase != Phase::Ready || state.binding.len() != state.initial.len()
            ==> state.executions(events) <= 1,
        state.executions(events) <= 2,
    decreases events.len(),
{
    if events.len() > 0 {
        let rest = events.drop_first();
        assert(stop_asserted(rest)) by {
            assert forall|k: int| 0 <= k < rest.len() implies (
            (#[trigger] rest[k]) matches EventView::Polled { stopped } ==> stopped) by {
                assert(rest[k] == events[k + 1]);
            }
        }
        assert(events.first() == events[0]);
        lemma_stop_responsive(state.step(events.first()).0, rest);
    }
}

/// A hill-climbing search over one predicate.
pub struct CbhSearch {
    phase: Phase,
    enable_dict: bool,
    initial: Vec<u8>,
    binding: Vec<u8>,
    fmin: u64,
    input_min: Vec<u8>,
}

impl View for CbhSearch {
    type V = CbhState;

    closed spec fn view(&self) -> CbhState {
        CbhState {
            phase: self.phase,
            enable_dict: self.enable_dict,
            initial: self.initial@,
            binding: self.binding@,
            fmin: self.fmin,
            incumbent: self.input_min@,
        }
    }
}

impl CbhSearch {
    /// A search that has not started, for an input whose tainted region
    /// holds `input` and a predicate whose recorded binding is `variables`.
    /// The tainted region must not be empty.
    pub fn new(input: Vec<u8>, variables: Vec<u8>, enable_dict: bool) -> (search: CbhSearch)
        requires
            input@.len() > 0,
        ensures
            search@ == (CbhState {
                phase: Phase::Ready,
                enable_dict,
                initial: input@,
                binding: variables@,
                fmin: u64::MAX,
                incumbent: input@,
            }),
    {
        let input_min = copy_bytes(&input);
        CbhSearch {
            phase: Phase::Ready,
            enable_dict,
            initial: input,
            binding: variables,
            fmin: u64::MAX,
            input_min,
        }
    }

    /// Takes the search one step on: see [`CbhState::step`].
    pub fn run(&mut self, event: Event) -> (answer: Option<Action>)
        ensures
            (final(self)@, answer_view(answer)) == old(self)@.step(event@),
            old(self)@.has_incumbent() ==> final(self)@.has_incumbent() && final(self)@.fmin
                <= old(self)@.fmin,
            old(self)@.phase == Phase::Done ==> answer is None,
            event@ == (EventView::Polled { stopped: true }) && old(self)@.phase
                == Phase::Polling ==> final(self)@.phase == Phase::Done && answer_view(answer)
                == Some(ActionView::Finish { binding: Some(old(self)@.incumbent) }),
    {
        match event {
            Event::Begin => {
                if self.phase == Phase::Ready {
                    self.phase = Phase::Probing;
                    Some(
                        Action::Execute {
                            value: copy_bytes(&self.initial),
                            mutation: Mutation::Keep,
                        },
                    )
                } else {
                    None
                }
            },
            Event::Executed { fitness, value, discovered } => {
                if self.phase == Phase::Probing {
                    self.fmin = fitness;
                    self.input_min = value;
                    if self.binding.len() == self.initial.len() {
                        self.phase = Phase::Planting;
                        Some(
                            Action::Execute {
                                value: copy_bytes(&self.binding),
                                mutation: Mutation::Keep,
                            },
                        )
                    } else {
                        self.phase = Phase::Polling;
                        Some(Action::Poll { fold: Vec::new() })
                    }
                } else if self.phase == Phase::Planting {
                    if fitness < self.fmin {
                        self.fmin = fitness;
                        self.input_min = value;
                    }
                    self.phase = Phase::Polling;
                    Some(Action::Poll { fold: Vec::new() })
                } else if self.phase == Phase::Mutating {
                    if fitness < self.fmin {
                        self.fmin = fitness;
                        self.input_min = value;
                    }
                    self.phase = Phase::Polling;
                    Some(Action::Poll { fold: discovered })
                } else {
                    None
                }
            },
            Event::Polled { stopped } => {
                if self.phase == Phase::Polling {
                    if stopped {
                        self.phase = Phase::Done;
                        Some(Action::Finish { binding: Some(copy_bytes(&self.input_min)) })
                    } else {
                        self.phase = Phase::Mutating;
                        Some(
                            Action::Execute {
                                value: copy_bytes(&self.input_min),
                                mutation: Mutation::Randomize { enable_dict: self.enable_dict },
                            },
                        )
                    }
                } else {
                    None
                }
            },
        }
    }
}

} // verus!
