//! Which problem's weights are in force.
//!
//! Search reads the weights as it goes and does not wait for the network. Starting a problem
//! puts the uniform weights in force at once; the network's own come later, from a thread in
//! the background, and only if no other problem has started by then.

use vstd::prelude::*;

use crate::input::{applies, inputs, inputs_of, Inputs};
use crate::ir::Tokenization;

verus! {

/// The number of the problem started last, and the weights in force. No rows at all are the
/// uniform weights.
pub struct Schedule<T> {
    pub problem: u64,
    pub weight: Vec<Vec<T>>,
}

/// The inputs that a background thread is to run the network on, and for which problem.
pub struct Job {
    pub problem: u64,
    pub inputs: Inputs,
}

/// A schedule as the laws speak of it.
#[verifier::ext_equal]
pub struct State<T> {
    pub problem: nat,
    pub weight: Seq<Vec<T>>,
}

impl<T> View for Schedule<T> {
    type V = State<T>;

    open spec fn view(&self) -> State<T> {
        State { problem: self.problem as nat, weight: self.weight@ }
    }
}

impl<T> Schedule<T> {
    /// No problem has started; the weights are uniform.
    pub fn new() -> (schedule: Schedule<T>)
        ensures
            schedule@ == State::<T>::initial(),
            schedule.problem == 0,
            schedule.weight@.len() == 0,
    {
        Schedule { problem: 0, weight: Vec::new() }
    }

    /// Whether the weights in force are the uniform ones.
    pub fn is_uniform(&self) -> (uniform: bool)
        ensures
            uniform == (self@.weight.len() == 0),
            uniform == (self.weight@.len() == 0),
    {
        self.weight.len() == 0
    }

    /// Starts the next problem and makes the weights uniform. Returns what the network is to be
    /// run on in the background, if it applies.
    pub fn start(&mut self, tokens: &Tokenization) -> (job: Option<Job>)
        requires
            old(self).problem < u64::MAX,
        ensures
            final(self)@ == old(self)@.after(Event::Start),
            final(self).problem == old(self).problem + 1,
            final(self).weight@.len() == 0,
            job is Some <==> tokens.premises@.len() > 0 && tokens.tokens@.len() + tokens.goals@.len()
                + tokens.premises@.len() <= 5000,
            job is Some <==> applies(*tokens),
            job matches Some(job) ==> job.problem == final(self).problem && inputs_of(
                job.inputs,
                *tokens,
            ),
    {
        self.problem = self.problem + 1;
        self.weight = Vec::new();
        match inputs(tokens) {
            Some(inputs) => Some(Job { problem: self.problem, inputs }),
            None => None,
        }
    }

    /// Whether the network still is to be run for this problem. Problems started in quick
    /// succession queue up for the network: only the latest runs.
    pub fn is_current(&self, problem: u64) -> (current: bool)
        ensures
            current == (self@.problem == problem),
            current == (self.problem == problem),
    {
        self.problem == problem
    }

    /// Puts a problem's weights in force, unless another problem has started since.
    pub fn publish(&mut self, problem: u64, weight: Vec<Vec<T>>) -> (published: bool)
        ensures
            published == (old(self)@.problem == problem),
            final(self)@ == old(self)@.after(
                Event::Publish { problem: problem as nat, weight: weight@ },
            ),
            published == (old(self).problem == problem),
            final(self).problem == old(self).problem,
            published ==> final(self).weight@ == weight@,
            !published ==> final(self).weight@ == old(self).weight@,
    {
        if self.problem == problem {
            self.weight = weight;
            true
        } else {
            false
        }
    }
}

/// What can happen to a schedule.
pub enum Event<T> {
    /// A problem starts.
    Start,
    /// The network comes back with a problem's weights.
    Publish { problem: nat, weight: Seq<Vec<T>> },
}

impl<T> State<T> {
    /// Before any problem.
    pub open spec fn initial() -> State<T> {
        State { problem: 0, weight: Seq::empty() }
    }

    /// After one event.
    pub open spec fn after(self, event: Event<T>) -> State<T> {
        match event {
            Event::Start => State { problem: self.problem + 1, weight: Seq::empty() },
            Event::Publish { problem, weight } => if problem == self.problem {
                State { problem: self.problem, weight }
            } else {
                self
            },
        }
    }

    /// After a sequence of events.
    pub open spec fn after_all(self, events: Seq<Event<T>>) -> State<T>
        decreases events.len(),
    {
        if events.len() == 0 {
            self
        } else {
            self.after_all(events.drop_last()).after(events.last())
        }
    }
}

/// Whether no event starts a problem.
pub open spec fn no_start<T>(events: Seq<Event<T>>) -> bool {
    forall|i: int| 0 <= i < events.len() ==> #[trigger] events[i] !is Start
}

/// How many events start a problem.
pub open spec fn starts<T>(events: Seq<Event<T>>) -> nat
    decreases events.len(),
{
    if events.len() == 0 {
        0
    } else {
        starts(events.drop_last()) + if events.last() is Start {
            1nat
        } else {
            0nat
        }
    }
}

/// The weights that came back last for a problem, or none.
pub open spec fn last_weight<T>(events: Seq<Event<T>>, of: nat) -> Seq<Vec<T>>
    decreases events.len(),
{
    if events.len() == 0 {
        Seq::empty()
    } else {
        match events.last() {
            Event::Publish { problem, weight } if problem == of => weight,
            _ => last_weight(events.drop_last(), of),
        }
    }
}

/// A problem's number counts the problems up to it, so no two problems share one.
pub proof fn law_problems_are_numbered<T>(state: State<T>, events: Seq<Event<T>>)
    ensures
        state.after_all(events).problem == state.problem + starts(events),
    decreases events.len(),
{
    if events.len() > 0 {
        law_problems_are_numbered(state, events.drop_last());
    }
}

/// Once a problem has started, and until the next one does, the weights in force are those
/// that came back last for it, and uniform while none have. Whatever comes back for another
/// problem changes nothing.
pub proof fn law_weights_are_of_the_latest<T>(
    before: State<T>,
    events: Seq<Event<T>>,
)
    requires
        no_start(events),
    ensures
        before.after(Event::Start).after_all(events).problem == before.problem + 1,
        before.after(Event::Start).after_all(events).weight == last_weight(
            events,
            before.problem + 1,
        ),
    decreases events.len(),
{
    if events.len() > 0 {
        assert(no_start(events.drop_last()));
        assert(events.last() == events[events.len() - 1]);
        law_weights_are_of_the_latest(before, events.drop_last());
    }
}

/// Weights that come back for a problem after another has started are dropped.
pub proof fn law_stale_weights_are_dropped<T>(
    state: State<T>,
    events: Seq<Event<T>>,
    problem: nat,
    weight: Seq<Vec<T>>,
)
    requires
        problem <= state.problem,
        starts(events) > 0,
    ensures
        state.after_all(events).after(Event::Publish { problem, weight }) == state.after_all(
            events,
        ),
{
    law_problems_are_numbered(state, events);
}

/// The weights in force are always either uniform or the ones that came back last for the problem
/// that started last: after a start, whatever has come back before and whatever comes back for
/// other problems, they are uniform until that problem's own come back, and then those.
pub proof fn law_only_own_weights<T>(
    state: State<T>,
    before: Seq<Event<T>>,
    between: Seq<Event<T>>,
    weight: Seq<Vec<T>>,
)
    requires
        no_start(between),
        forall|i: int|
            0 <= i < between.len() ==> match #[trigger] between[i] {
                Event::Publish { problem, .. } => problem != state.after_all(before).problem + 1,
                Event::Start => false,
            },
    ensures
        ({
            let started = state.after_all(before).after(Event::Start);
            let number = state.after_all(before).problem + 1;
            &&& started.after_all(between).weight.len() == 0
            &&& started.after_all(between).problem == number
            &&& started.after_all(between).after(
                Event::Publish { problem: number, weight },
            ).weight == weight
        }),
    decreases between.len(),
{
    if between.len() > 0 {
        let init = between.drop_last();
        assert forall|i: int| 0 <= i < init.len() implies match #[trigger] init[i] {
            Event::Publish { problem, .. } => problem != state.after_all(before).problem + 1,
            Event::Start => false,
        } by {
            assert(init[i] == between[i]);
        }
        assert(no_start(init));
        law_only_own_weights(state, before, init, weight);
        assert(between.last() == between[between.len() - 1]);
    }
}

/// Starting a problem always makes the weights uniform.
pub proof fn law_start_is_uniform<T>(events: Seq<Event<T>>)
    ensures
        State::<T>::initial().after_all(events.push(Event::Start)).weight == Seq::<
            Vec<T>,
        >::empty(),
{
    let all = events.push(Event::Start);
    assert(all.drop_last() =~= events);
}

} // verus!
