//! The trials of one test: when to pause, when to send a batch, what to
//! make of what came back, and what the test amounts to in the end.
//!
//! A runner sends nothing and waits for nothing itself. It says what is to
//! be done next, is told what happened, and says what is to be done then.

use vstd::prelude::*;
use crate::batch::OrderPolicy;
use crate::config::Test;
use crate::outcome::{
    all_successful, first_rejected, lemma_first_rejected, spec_is_success, validate, Failure,
    RequestOutcome,
};
use crate::stats::{lemma_statistic_defined, spec_mean, spec_stddev, statistic};

verus! {

/// Where a runner stands.
#[derive(Clone, Copy, Debug, PartialEq, Eq, Structural)]
pub enum Phase {
    /// The pause before the next trial has yet to be taken.
    Delaying,
    /// The next trial's batch is to be sent, or is under way.
    Running,
    /// Every trial is done: the mean and the deviation of their times.
    Finished { mean: u64, stddev: u64 },
    /// The run has failed, and nothing more is to be done.
    Failed(Failure),
}

/// What the runner is told.
#[derive(Debug, PartialEq, Eq)]
pub enum Event {
    /// The pause was taken.
    Slept,
    /// The batch was sent and every exchange completed: the time that the
    /// whole batch took, in nanoseconds, and what came back.
    BatchDone { elapsed_ns: u64, outcomes: Vec<RequestOutcome> },
    /// The batch was given up because an exchange did not complete.
    BatchFailed,
}

/// What the runner asks for.
#[derive(Debug, PartialEq, Eq)]
pub enum TrialAction {
    /// Pause for so many seconds, then report `Event::Slept`.
    Sleep { seconds: u64 },
    /// Send one request to each address, at most `concurrency` of them
    /// under way at once, and take the outcomes in the order that `policy`
    /// names; time the whole, then report `Event::BatchDone`, or
    /// `Event::BatchFailed`.
    Dispatch { concurrency: usize, urls: Vec<String>, policy: OrderPolicy },
    /// The test is over: the mean and the deviation of its trials' times,
    /// in nanoseconds.
    Done { mean: u64, stddev: u64 },
    /// The run is over, without a result.
    Abort(Failure),
}

/// Whether a pause comes before a trial: before every trial but the first
/// trial of the first test of a suite. Trials count from one.
pub open spec fn needs_delay(first_in_suite: bool, trial: nat) -> bool {
    !(trial == 1 && first_in_suite)
}

/// A runner as contracts see it.
pub struct TrialState {
    /// The test that is run.
    pub test: Test,
    /// Whether it is the first test of its suite.
    pub first_in_suite: bool,
    /// In what order the outcomes of a batch are taken.
    pub policy: OrderPolicy,
    /// The times of the trials done so far, in nanoseconds, oldest first.
    pub samples: Seq<u64>,
    /// Where the runner stands.
    pub phase: Phase,
}

impl TrialState {
    /// Where a runner stands between two trials, with `samples` in hand.
    pub open spec fn phase_between(test: Test, first_in_suite: bool, samples: Seq<u64>) -> Phase {
        if samples.len() >= test.repeats {
            if samples.len() == 0 {
                Phase::Failed(Failure::EmptySampleSet)
            } else {
                Phase::Finished {
                    mean: spec_mean(samples) as u64,
                    stddev: spec_stddev(samples) as u64,
                }
            }
        } else if needs_delay(first_in_suite, samples.len() + 1) {
            Phase::Delaying
        } else {
            Phase::Running
        }
    }

    /// The runner before its first trial.
    pub open spec fn start(test: Test, first_in_suite: bool, policy: OrderPolicy) -> TrialState {
        TrialState {
            test,
            first_in_suite,
            policy,
            samples: Seq::empty(),
            phase: Self::phase_between(test, first_in_suite, Seq::empty()),
        }
    }

    /// The runner after an event. An event that the runner does not wait
    /// for changes nothing.
    pub open spec fn next(self, event: Event) -> TrialState {
        match (self.phase, event) {
            (Phase::Delaying, Event::Slept) => TrialState { phase: Phase::Running, ..self },
            (Phase::Running, Event::BatchFailed) => TrialState {
                phase: Phase::Failed(Failure::ConnectionFailure),
                ..self
            },
            (Phase::Running, Event::BatchDone { elapsed_ns, outcomes }) => {
                match first_rejected(outcomes@) {
                    Some(status) => TrialState {
                        phase: Phase::Failed(Failure::UnsuccessfulStatus(status)),
                        ..self
                    },
                    None => {
                        let samples = self.samples.push(elapsed_ns);
                        TrialState {
                            samples,
                            phase: Self::phase_between(self.test, self.first_in_suite, samples),
                            ..self
                        }
                    },
                }
            },
            _ => self,
        }
    }

    /// The runner after a series of events, one after the other.
    pub open spec fn after(self, events: Seq<Event>) -> TrialState
        decreases events.len(),
    {
        if events.len() == 0 {
            self
        } else {
            self.after(events.drop_last()).next(events.last())
        }
    }

    /// Whether `action` is what the runner asks for where it stands.
    pub open spec fn asks(self, action: TrialAction) -> bool {
        match self.phase {
            Phase::Delaying => action == (TrialAction::Sleep { seconds: self.test.delay_s }),
            Phase::Running => {
                &&& action matches TrialAction::Dispatch { concurrency, urls, policy }
                &&& concurrency == self.test.concurrent_requests
                &&& policy == self.policy
                &&& urls@ =~= Seq::new(self.test.requests_number as nat, |i: int| self.test.url_get)
            },
            Phase::Finished { mean, stddev } => action == (TrialAction::Done { mean, stddev }),
            Phase::Failed(failure) => action == TrialAction::Abort(failure),
        }
    }

    /// What holds of a runner at every moment.
    pub open spec fn wf(self) -> bool {
        match self.phase {
            Phase::Delaying => {
                &&& self.samples.len() < self.test.repeats
                &&& needs_delay(self.first_in_suite, self.samples.len() + 1)
            },
            Phase::Running => self.samples.len() < self.test.repeats,
            Phase::Finished { mean, stddev } => {
                &&& self.samples.len() == self.test.repeats
                &&& self.samples.len() > 0
                &&& mean == spec_mean(self.samples)
                &&& stddev == spec_stddev(self.samples)
            },
            Phase::Failed(failure) => match failure {
                Failure::EmptySampleSet => self.test.repeats == 0 && self.samples.len() == 0,
                _ => self.samples.len() < self.test.repeats,
            },
        }
    }
}

/// Runs the trials of one test.
pub struct TrialRunner {
    test: Test,
    first_in_suite: bool,
    policy: OrderPolicy,
    samples: Vec<u64>,
    phase: Phase,
}

/// As many copies of one address as a batch has requests.
pub fn batch_urls(url: &String, count: usize) -> (urls: Vec<String>)
    ensures
        urls@ =~= Seq::new(count as nat, |i: int| *url),
{
    let mut urls: Vec<String> = Vec::new();
    let mut i: usize = 0;
    while i < count
        invariant
            0 <= i <= count,
            urls@ =~= Seq::new(i as nat, |j: int| *url),
        decreases count - i,
    {
        urls.push(url.clone());
        i = i + 1;
    }
    urls
}

impl View for TrialRunner {
    type V = TrialState;

    closed spec fn view(&self) -> TrialState {
        TrialState {
            test: self.test,
            first_in_suite: self.first_in_suite,
            policy: self.policy,
            samples: self.samples@,
            phase: self.phase,
        }
    }
}

impl TrialRunner {
    /// Where the runner stands once `samples` holds the times of the
    /// trials done so far.
    fn settle(test: &Test, first_in_suite: bool, samples: &Vec<u64>) -> (phase: Phase)
        requires
            samples@.len() <= test.repeats,
        ensures
            phase == TrialState::phase_between(*test, first_in_suite, samples@),
            phase matches Phase::Finished { mean, stddev } ==> {
                &&& mean == spec_mean(samples@)
                &&& stddev == spec_stddev(samples@)
            },
    {
        let done: usize = samples.len();
        if done >= test.repeats {
            match statistic(samples.as_slice()) {
                Some((mean, stddev)) => Phase::Finished { mean, stddev },
                None => Phase::Failed(Failure::EmptySampleSet),
            }
        } else if done == 0 && first_in_suite {
            Phase::Running
        } else {
            Phase::Delaying
        }
    }

    /// A runner for `test`, before its first trial.
    pub fn new(test: Test, first_in_suite: bool, policy: OrderPolicy) -> (r: Self)
        ensures
            r@ == TrialState::start(test, first_in_suite, policy),
            r@.wf(),
    {
        let samples: Vec<u64> = Vec::new();
        let phase = Self::settle(&test, first_in_suite, &samples);
        TrialRunner { test, first_in_suite, policy, samples, phase }
    }

    /// What the runner asks for now.
    pub fn action(&self) -> (a: TrialAction)
        ensures
            self@.asks(a),
    {
        match self.phase {
            Phase::Delaying => TrialAction::Sleep { seconds: self.test.delay_s },
            Phase::Running => TrialAction::Dispatch {
                concurrency: self.test.concurrent_requests,
                urls: batch_urls(&self.test.url_get, self.test.requests_number),
                policy: self.policy,
            },
            Phase::Finished { mean, stddev } => TrialAction::Done { mean, stddev },
            Phase::Failed(failure) => TrialAction::Abort(failure),
        }
    }

    /// Takes an event in.
    pub fn accept(&mut self, event: Event)
        requires
            old(self)@.wf(),
        ensures
            final(self)@ == old(self)@.next(event),
            final(self)@.wf(),
    {
        match self.phase {
            Phase::Delaying => {
                if let Event::Slept = event {
                    self.phase = Phase::Running;
                }
            },
            Phase::Running => {
                match event {
                    Event::Slept => {},
                    Event::BatchFailed => {
                        self.phase = Phase::Failed(Failure::ConnectionFailure);
                    },
                    Event::BatchDone { elapsed_ns, outcomes } => {
                        match validate(&outcomes) {
                            Some(status) => {
                                self.phase = Phase::Failed(Failure::UnsuccessfulStatus(status));
                            },
                            None => {
                                self.samples.push(elapsed_ns);
                                self.phase = Self::settle(
                                    &self.test,
                                    self.first_in_suite,
                                    &self.samples,
                                );
                            },
                        }
                    },
                }
            },
            _ => {},
        }
    }

    /// Takes an event in, and says what the runner asks for then.
    pub fn step(&mut self, event: Event) -> (a: TrialAction)
        requires
            old(self)@.wf(),
        ensures
            final(self)@ == old(self)@.next(event),
            final(self)@.wf(),
            final(self)@.asks(a),
    {
        self.accept(event);
        self.action()
    }

    /// Where the runner stands.
    pub fn phase(&self) -> (p: Phase)
        ensures
            p == self@.phase,
    {
        self.phase
    }

    /// The test that the runner runs.
    pub fn test(&self) -> (t: &Test)
        ensures
            *t == self@.test,
    {
        &self.test
    }

    /// Whether the test is the first of its suite.
    pub fn first_in_suite(&self) -> (first: bool)
        ensures
            first == self@.first_in_suite,
    {
        self.first_in_suite
    }

    /// In what order the outcomes of a batch are taken.
    pub fn policy(&self) -> (p: OrderPolicy)
        ensures
            p == self@.policy,
    {
        self.policy
    }

    /// How many trials are done.
    pub fn trials_done(&self) -> (n: usize)
        ensures
            n == self@.samples.len(),
    {
        self.samples.len()
    }

    /// The times of the trials done so far, in nanoseconds, oldest first.
    pub fn samples(&self) -> (s: &Vec<u64>)
        ensures
            s@ == self@.samples,
    {
        &self.samples
    }
}

/// Whether an event reports a batch of which every outcome is a success.
pub open spec fn is_clean(event: Event) -> bool {
    event matches Event::BatchDone { outcomes, .. } && all_successful(outcomes@)
}

/// The time that an event reports for its batch.
pub open spec fn time_of(event: Event) -> u64 {
    match event {
        Event::BatchDone { elapsed_ns, .. } => elapsed_ns,
        _ => 0,
    }
}

/// The times that a series of events reports, in their order.
pub open spec fn times_of(batches: Seq<Event>) -> Seq<u64> {
    Seq::new(batches.len(), |i: int| time_of(batches[i]))
}

/// What a runner is told in a run that does as the runner asks: each
/// batch's report, and before it that the pause was taken, where the runner
/// asks for one.
pub open spec fn obedient(first_in_suite: bool, batches: Seq<Event>) -> Seq<Event>
    decreases batches.len(),
{
    if batches.len() == 0 {
        Seq::empty()
    } else {
        let before = obedient(first_in_suite, batches.drop_last());
        if needs_delay(first_in_suite, batches.len()) {
            before.push(Event::Slept).push(batches.last())
        } else {
            before.push(batches.last())
        }
    }
}

/// How many pauses a run of so many trials takes: one before each trial,
/// but for the first trial of the first test of a suite.
pub open spec fn pauses(first_in_suite: bool, trials: nat) -> nat {
    if first_in_suite && trials > 0 {
        (trials - 1) as nat
    } else {
        trials
    }
}

/// A run that does as the runner asks, and in which every outcome is a
/// success: the runner holds the time of each batch, in their order, it has
/// asked for one pause before each trial but the first trial of a first
/// test, and once the batches are as many as the test has trials it ends
/// with the mean and the deviation of their times.
pub proof fn lemma_clean_run(
    test: Test,
    first_in_suite: bool,
    policy: OrderPolicy,
    batches: Seq<Event>,
)
    requires
        batches.len() <= test.repeats,
        test.repeats > 0,
        forall|i: int| 0 <= i < batches.len() ==> is_clean(#[trigger] batches[i]),
    ensures
        ({
            let end = TrialState::start(test, first_in_suite, policy).after(
                obedient(first_in_suite, batches),
            );
            &&& end.wf()
            &&& end.test == test
            &&& end.first_in_suite == first_in_suite
            &&& end.policy == policy
            &&& end.samples == times_of(batches)
            &&& end.phase == TrialState::phase_between(test, first_in_suite, times_of(batches))
            &&& batches.len() == test.repeats ==> end.phase == (Phase::Finished {
                mean: spec_mean(times_of(batches)) as u64,
                stddev: spec_stddev(times_of(batches)) as u64,
            })
        }),
        obedient(first_in_suite, batches).len() == batches.len() + pauses(
            first_in_suite,
            batches.len(),
        ),
    decreases batches.len(),
{
    let begin = TrialState::start(test, first_in_suite, policy);
    if batches.len() == 0 {
        assert(times_of(batches) =~= Seq::<u64>::empty());
    } else {
        let front = batches.drop_last();
        let last = batches.last();
        lemma_clean_run(test, first_in_suite, policy, front);
        let before = obedient(first_in_suite, front);
        let mid = begin.after(before);
        assert(is_clean(batches[batches.len() - 1]));
        assert(times_of(batches) =~= times_of(front).push(time_of(last)));
        if let Event::BatchDone { elapsed_ns, outcomes } = last {
            lemma_first_rejected(outcomes@);
            lemma_statistic_defined(mid.samples.push(elapsed_ns));
        }
        if needs_delay(first_in_suite, batches.len()) {
            let paused = before.push(Event::Slept);
            assert(paused.drop_last() =~= before);
            assert(paused.push(last).drop_last() =~= paused);
            assert(begin.after(paused) == mid.next(Event::Slept));
            assert(begin.after(paused.push(last)) == mid.next(Event::Slept).next(last));
        } else {
            assert(before.push(last).drop_last() =~= before);
            assert(begin.after(before.push(last)) == mid.next(last));
        }
        let end = begin.after(obedient(first_in_suite, batches));
        assert(end.samples =~= times_of(batches));
    }
}

/// Whatever a runner is told, it stays as it should be.
pub proof fn lemma_next_keeps_wf(state: TrialState, event: Event)
    requires
        state.wf(),
    ensures
        state.next(event).wf(),
{
    if let Event::BatchDone { elapsed_ns, outcomes } = event {
        lemma_statistic_defined(state.samples.push(elapsed_ns));
    }
}

/// A test that asks for no trial fails at once, for want of samples, and
/// before anything is sent.
pub proof fn lemma_no_trials(test: Test, first_in_suite: bool, policy: OrderPolicy)
    requires
        test.repeats == 0,
    ensures
        TrialState::start(test, first_in_suite, policy).phase == Phase::Failed(
            Failure::EmptySampleSet,
        ),
        TrialState::start(test, first_in_suite, policy).asks(
            TrialAction::Abort(Failure::EmptySampleSet),
        ),
        TrialState::start(test, first_in_suite, policy).wf(),
{
}

/// A test with trials begins with a batch if it is the first of its
/// suite, and with a pause of its own delay if it is not.
pub proof fn lemma_first_trial(test: Test, first_in_suite: bool, policy: OrderPolicy)
    requires
        test.repeats > 0,
    ensures
        first_in_suite ==> TrialState::start(test, first_in_suite, policy).phase == Phase::Running,
        !first_in_suite ==> TrialState::start(test, first_in_suite, policy).asks(
            TrialAction::Sleep { seconds: test.delay_s },
        ),
        TrialState::start(test, first_in_suite, policy).wf(),
{
}

/// But for that first batch, a runner turns to a batch only from a pause,
/// and only when told that the pause was taken.
pub proof fn lemma_batch_follows_pause(state: TrialState, event: Event)
    requires
        state.wf(),
        !(state.phase is Running),
        state.next(event).phase is Running,
    ensures
        state.phase is Delaying,
        event is Slept,
        state.asks(TrialAction::Sleep { seconds: state.test.delay_s }),
{
}

/// A batch whose outcomes are all successes adds its time to the samples.
/// After the last trial the test is over, with the mean and the deviation
/// of as many samples as the test has trials; after any other, a pause of
/// the test's delay comes next.
pub proof fn lemma_trial_recorded(state: TrialState, elapsed_ns: u64, outcomes: Vec<RequestOutcome>)
    requires
        state.wf(),
        state.phase is Running,
        all_successful(outcomes@),
    ensures
        ({
            let after = state.next(Event::BatchDone { elapsed_ns, outcomes });
            &&& after.samples == state.samples.push(elapsed_ns)
            &&& after.samples.len() < state.test.repeats ==> after.asks(
                TrialAction::Sleep { seconds: state.test.delay_s },
            )
            &&& after.samples.len() == state.test.repeats ==> after.asks(
                TrialAction::Done {
                    mean: spec_mean(after.samples) as u64,
                    stddev: spec_stddev(after.samples) as u64,
                },
            ) && spec_mean(after.samples) <= u64::MAX && spec_stddev(after.samples) <= u64::MAX
        }),
{
    lemma_first_rejected(outcomes@);
    lemma_statistic_defined(state.samples.push(elapsed_ns));
}

/// One outcome that is not a success fails the run: the batch's time is
/// not kept, and the failure names a status that was rejected.
pub proof fn lemma_rejected_is_fatal(
    state: TrialState,
    elapsed_ns: u64,
    outcomes: Vec<RequestOutcome>,
    i: int,
)
    requires
        state.phase is Running,
        0 <= i < outcomes@.len(),
        !spec_is_success(outcomes@[i].status),
    ensures
        ({
            let after = state.next(Event::BatchDone { elapsed_ns, outcomes });
            &&& after.samples == state.samples
            &&& after.phase matches Phase::Failed(Failure::UnsuccessfulStatus(status))
            &&& !spec_is_success(status)
            &&& first_rejected(outcomes@) == Some(status)
        }),
{
    lemma_first_rejected(outcomes@);
}

/// A runner that has failed stays as it is, whatever it is told, and asks
/// for nothing but the end of the run.
pub proof fn lemma_failure_is_final(state: TrialState, event: Event)
    requires
        state.phase is Failed,
    ensures
        state.next(event) == state,
        state.phase matches Phase::Failed(failure) && state.asks(TrialAction::Abort(failure)),
{
}

} // verus!
