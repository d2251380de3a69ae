//! A suite: its tests, run one after the other, each to its mean and
//! deviation.

use vstd::prelude::*;
use crate::batch::OrderPolicy;
use crate::config::Test;
use crate::outcome::Failure;
use crate::stats::{spec_mean, spec_stddev};
use crate::stats::lemma_statistic_defined;
use crate::trial::{
    is_clean, lemma_clean_run, lemma_next_keeps_wf, needs_delay, obedient, times_of, Event, Phase,
    TrialAction, TrialRunner, TrialState,
};

verus! {

/// What the suite asks for.
#[derive(Debug, PartialEq, Eq)]
pub enum SuiteAction {
    /// Pause for so many seconds, then report `Event::Slept`.
    Sleep { seconds: u64 },
    /// Send one request to each address, at most `concurrency` of them
    /// under way at once, and take the outcomes in the order that `policy`
    /// names; time the whole, then report `Event::BatchDone`, or
    /// `Event::BatchFailed`.
    Dispatch { concurrency: usize, urls: Vec<String>, policy: OrderPolicy },
    /// Every test is over: the results are there to be taken.
    Finished,
    /// The run is over, without a result.
    Abort(Failure),
}

/// A suite as contracts see it.
pub struct SuiteState {
    /// The tests, in the order in which they run.
    pub tests: Seq<Test>,
    /// In what order the outcomes of each batch are taken.
    pub policy: OrderPolicy,
    /// What the run is called; shown, never read.
    pub title: Seq<char>,
    /// The mean and the deviation of each test that is over, in that order.
    pub results: Seq<(u64, u64)>,
    /// The times of the trials of each test that is over, in nanoseconds.
    pub history: Seq<Seq<u64>>,
    /// The test that is under way, if one is.
    pub trial: Option<TrialState>,
}

impl SuiteState {
    /// The suite as it turns to the test that follows those that are over.
    /// Only the first test of a suite counts as first.
    pub open spec fn entered(self) -> SuiteState {
        SuiteState {
            trial: if self.results.len() < self.tests.len() {
                Some(
                    TrialState::start(
                        self.tests[self.results.len() as int],
                        self.results.len() == 0,
                        self.policy,
                    ),
                )
            } else {
                None
            },
            ..self
        }
    }

    /// The suite before its first test.
    pub open spec fn start(tests: Seq<Test>, policy: OrderPolicy, title: Seq<char>) -> SuiteState {
        SuiteState {
            tests,
            policy,
            title,
            results: Seq::empty(),
            history: Seq::empty(),
            trial: None,
        }.entered()
    }

    /// The suite after an event: the event goes to the test under way, and
    /// where that test is over, its result is kept and the next test begins.
    pub open spec fn next(self, event: Event) -> SuiteState {
        match self.trial {
            None => self,
            Some(trial) => {
                let after = trial.next(event);
                match after.phase {
                    Phase::Finished { mean, stddev } => SuiteState {
                        results: self.results.push((mean, stddev)),
                        history: self.history.push(after.samples),
                        ..self
                    }.entered(),
                    _ => SuiteState { trial: Some(after), ..self },
                }
            },
        }
    }

    /// The suite after a series of events, one after the other.
    pub open spec fn after(self, events: Seq<Event>) -> SuiteState
        decreases events.len(),
    {
        if events.len() == 0 {
            self
        } else {
            self.after(events.drop_last()).next(events.last())
        }
    }

    /// Whether `action` is what the suite asks for where it stands.
    pub open spec fn asks(self, action: SuiteAction) -> bool {
        match self.trial {
            None => action == SuiteAction::Finished,
            Some(trial) => match trial.phase {
                Phase::Delaying => action == (SuiteAction::Sleep { seconds: trial.test.delay_s }),
                Phase::Running => {
                    &&& action matches SuiteAction::Dispatch { concurrency, urls, policy }
                    &&& concurrency == trial.test.concurrent_requests
                    &&& policy == self.policy
                    &&& urls@ =~= Seq::new(
                        trial.test.requests_number as nat,
                        |i: int| trial.test.url_get,
                    )
                },
                Phase::Finished { .. } => false,
                Phase::Failed(failure) => action == SuiteAction::Abort(failure),
            },
        }
    }

    /// What holds of a suite at every moment.
    pub open spec fn wf(self) -> bool {
        &&& self.results.len() == self.history.len()
        &&& self.results.len() <= self.tests.len()
        &&& forall|i: int|
            0 <= i < self.results.len() ==> {
                &&& (#[trigger] self.history[i]).len() == self.tests[i].repeats
                &&& self.history[i].len() > 0
                &&& self.results[i].0 == spec_mean(self.history[i])
                &&& self.results[i].1 == spec_stddev(self.history[i])
            }
        &&& self.trial is Some <==> self.results.len() < self.tests.len()
        &&& self.trial matches Some(trial) ==> {
            &&& trial.wf()
            &&& trial.test == self.tests[self.results.len() as int]
            &&& trial.first_in_suite == (self.results.len() == 0)
            &&& trial.policy == self.policy
            &&& !(trial.phase is Finished)
        }
    }

    /// Whether every test is over.
    pub open spec fn finished(self) -> bool {
        self.trial is None
    }
}

/// Runs the tests of a suite.
pub struct SuiteRunner {
    tests: Vec<Test>,
    policy: OrderPolicy,
    title: String,
    results: Vec<(u64, u64)>,
    current: Option<TrialRunner>,
    history: Ghost<Seq<Seq<u64>>>,
}

impl View for SuiteRunner {
    type V = SuiteState;

    closed spec fn view(&self) -> SuiteState {
        SuiteState {
            tests: self.tests@,
            policy: self.policy,
            title: self.title@,
            results: self.results@,
            history: self.history@,
            trial: match self.current {
                Some(runner) => Some(runner@),
                None => None,
            },
        }
    }
}

impl SuiteRunner {
    /// A runner for the test at `index`, if there is such a test.
    fn open(tests: &Vec<Test>, index: usize, policy: OrderPolicy) -> (r: Option<TrialRunner>)
        ensures
            r is Some <==> index < tests@.len(),
            r matches Some(runner) ==> {
                &&& runner@ == TrialState::start(tests@[index as int], index == 0, policy)
                &&& runner@.wf()
            },
    {
        if index < tests.len() {
            Some(TrialRunner::new(tests[index].clone(), index == 0, policy))
        } else {
            None
        }
    }

    /// A suite of `tests`, before its first test.
    pub fn new(tests: Vec<Test>, policy: OrderPolicy, title: String) -> (r: Self)
        ensures
            r@ == SuiteState::start(tests@, policy, title@),
            r@.wf(),
    {
        let current = Self::open(&tests, 0, policy);
        proof {
            if tests@.len() > 0 {
                lemma_start_not_finished(tests@[0], true, policy);
            }
        }
        SuiteRunner {
            tests,
            policy,
            title,
            results: Vec::new(),
            current,
            history: Ghost(Seq::empty()),
        }
    }

    /// What the suite asks for now.
    pub fn action(&self) -> (a: SuiteAction)
        requires
            self@.wf(),
        ensures
            self@.asks(a),
    {
        match &self.current {
            None => SuiteAction::Finished,
            Some(runner) => match runner.action() {
                TrialAction::Sleep { seconds } => SuiteAction::Sleep { seconds },
                TrialAction::Dispatch { concurrency, urls, policy } => SuiteAction::Dispatch {
                    concurrency,
                    urls,
                    policy,
                },
                TrialAction::Done { .. } => SuiteAction::Finished,
                TrialAction::Abort(failure) => SuiteAction::Abort(failure),
            },
        }
    }

    /// Takes an event in, and says what the suite asks for then.
    pub fn step(&mut self, event: Event) -> (a: SuiteAction)
        requires
            old(self)@.wf(),
        ensures
            final(self)@ == old(self)@.next(event),
            final(self)@.wf(),
            final(self)@.asks(a),
    {
        let current = self.current.take();
        match current {
            None => {},
            Some(mut runner) => {
                runner.accept(event);
                match runner.phase() {
                    Phase::Finished { mean, stddev } => {
                        self.results.push((mean, stddev));
                        proof {
                            self.history@ = self.history@.push(runner@.samples);
                        }
                        let index: usize = self.results.len();
                        self.current = Self::open(&self.tests, index, self.policy);
                        proof {
                            if index < self.tests@.len() {
                                lemma_start_not_finished(
                                    self.tests@[index as int],
                                    false,
                                    self.policy,
                                );
                            }
                        }
                    },
                    _ => {
                        self.current = Some(runner);
                    },
                }
            },
        }
        self.action()
    }

    /// What the run is called.
    pub fn title(&self) -> (t: &String)
        ensures
            t@ == self@.title,
    {
        &self.title
    }

    /// In what order the outcomes of each batch are taken.
    pub fn policy(&self) -> (p: OrderPolicy)
        ensures
            p == self@.policy,
    {
        self.policy
    }

    /// The tests of the suite.
    pub fn tests(&self) -> (t: &Vec<Test>)
        ensures
            t@ == self@.tests,
    {
        &self.tests
    }

    /// The mean and the deviation, in nanoseconds, of each test that is
    /// over, in the order of the tests.
    pub fn results(&self) -> (r: &Vec<(u64, u64)>)
        ensures
            r@ == self@.results,
    {
        &self.results
    }

    /// Gives the results up: one for each test, once every test is over.
    pub fn into_results(self) -> (r: Vec<(u64, u64)>)
        ensures
            r@ == self@.results,
    {
        self.results
    }

    /// The runner of the test under way, if one is.
    pub fn current(&self) -> (r: Option<&TrialRunner>)
        ensures
            match r {
                Some(runner) => self@.trial == Some(runner@),
                None => self@.trial is None,
            },
    {
        self.current.as_ref()
    }
}

/// A runner never begins where it ends: before its first trial it pauses,
/// runs, or has failed for want of trials.
pub proof fn lemma_start_not_finished(test: Test, first_in_suite: bool, policy: OrderPolicy)
    ensures
        !(TrialState::start(test, first_in_suite, policy).phase is Finished),
        TrialState::start(test, first_in_suite, policy).wf(),
{
}

/// Whatever a suite is told, it stays as it should be.
pub proof fn lemma_suite_keeps_wf(state: SuiteState, event: Event)
    requires
        state.wf(),
    ensures
        state.next(event).wf(),
{
    if let Some(trial) = state.trial {
        lemma_next_keeps_wf(trial, event);
        let after = trial.next(event);
        if let Phase::Finished { mean, stddev } = after.phase {
            let results = state.results.push((mean, stddev));
            if results.len() < state.tests.len() {
                lemma_start_not_finished(state.tests[results.len() as int], false, state.policy);
            }
        }
    }
}

/// Once a test has failed, the suite stays as it is, whatever it is told:
/// no later test begins, no result is added, and the suite asks for
/// nothing but the end of the run.
pub proof fn lemma_suite_failure_is_final(state: SuiteState, event: Event)
    requires
        state.trial matches Some(trial) && trial.phase is Failed,
    ensures
        state.next(event) == state,
        state.trial matches Some(trial) && trial.phase matches Phase::Failed(failure)
            && state.asks(SuiteAction::Abort(failure)),
{
}

/// A suite that is over holds one result for each test, in the order of
/// the tests: the mean and the deviation of as many samples as the test
/// has trials.
pub proof fn lemma_finished_suite(state: SuiteState)
    requires
        state.wf(),
        state.finished(),
    ensures
        state.asks(SuiteAction::Finished),
        state.results.len() == state.tests.len(),
        forall|i: int|
            0 <= i < state.tests.len() ==> {
                &&& (#[trigger] state.history[i]).len() == state.tests[i].repeats
                &&& state.results[i].0 == spec_mean(state.history[i])
                &&& state.results[i].1 == spec_stddev(state.history[i])
            },
{
}

/// Every test but the first of the suite begins with a pause of its own
/// delay, if it has a trial at all.
pub proof fn lemma_later_test_pauses(state: SuiteState)
    requires
        0 < state.results.len() < state.tests.len(),
        state.tests[state.results.len() as int].repeats > 0,
    ensures
        state.entered().asks(
            SuiteAction::Sleep { seconds: state.tests[state.results.len() as int].delay_s },
        ),
{
}

/// The first test of the suite begins with its batch, without a pause, if
/// it has a trial at all.
pub proof fn lemma_first_test_runs_at_once(tests: Seq<Test>, policy: OrderPolicy, title: Seq<char>)
    requires
        tests.len() > 0,
        tests[0].repeats > 0,
    ensures
        SuiteState::start(tests, policy, title).trial matches Some(trial) && trial.phase
            == Phase::Running,
        SuiteState::start(tests, policy, title).wf(),
{
}

/// What a suite is told in a run that does as the suite asks: for each
/// test in turn, what its runner is told. `reports` holds the reports of
/// the batches, test by test.
pub open spec fn suite_obedient(reports: Seq<Seq<Event>>) -> Seq<Event>
    decreases reports.len(),
{
    if reports.len() == 0 {
        Seq::empty()
    } else {
        suite_obedient(reports.drop_last()) + obedient(reports.len() == 1, reports.last())
    }
}

/// Whether `reports` holds, for each of its tests, as many reports as the
/// test has trials, at least one, and each of a batch of successes only.
pub open spec fn clean_reports(tests: Seq<Test>, reports: Seq<Seq<Event>>) -> bool {
    &&& reports.len() <= tests.len()
    &&& forall|i: int|
        0 <= i < reports.len() ==> {
            &&& (#[trigger] reports[i]).len() == tests[i].repeats
            &&& reports[i].len() > 0
            &&& forall|k: int| 0 <= k < reports[i].len() ==> is_clean(#[trigger] reports[i][k])
        }
}

/// Events taken one series after another are taken as one series.
pub proof fn lemma_after_both(state: SuiteState, first: Seq<Event>, second: Seq<Event>)
    ensures
        state.after(first + second) == state.after(first).after(second),
    decreases second.len(),
{
    if second.len() == 0 {
        assert(first + second =~= first);
    } else {
        lemma_after_both(state, first, second.drop_last());
        assert((first + second).drop_last() =~= first + second.drop_last());
    }
}

/// One test of a suite, run as the suite asks and with successes only:
/// while batches are left to run, the suite stands where the test's runner
/// stands; with the last batch the test's result is kept, the mean and
/// the deviation of the batches' times, and the suite turns to the next
/// test.
pub proof fn lemma_clean_test(state: SuiteState, batches: Seq<Event>)
    requires
        state.wf(),
        state == state.entered(),
        state.results.len() < state.tests.len(),
        0 < state.tests[state.results.len() as int].repeats,
        batches.len() <= state.tests[state.results.len() as int].repeats,
        forall|k: int| 0 <= k < batches.len() ==> is_clean(#[trigger] batches[k]),
    ensures
        ({
            let test = state.tests[state.results.len() as int];
            let first = state.results.len() == 0;
            let events = obedient(first, batches);
            let times = times_of(batches);
            if batches.len() < test.repeats {
                state.after(events) == (SuiteState {
                    trial: Some(TrialState::start(test, first, state.policy).after(events)),
                    ..state
                })
            } else {
                state.after(events) == (SuiteState {
                    results: state.results.push(
                        (spec_mean(times) as u64, spec_stddev(times) as u64),
                    ),
                    history: state.history.push(times),
                    ..state
                }).entered()
            }
        }),
    decreases batches.len(),
{
    let test = state.tests[state.results.len() as int];
    let first = state.results.len() == 0;
    let begin = TrialState::start(test, first, state.policy);
    if batches.len() > 0 {
        let front = batches.drop_last();
        let last = batches.last();
        let before = obedient(first, front);
        lemma_clean_test(state, front);
        lemma_clean_run(test, first, state.policy, front);
        lemma_clean_run(test, first, state.policy, batches);
        let mid = begin.after(before);
        let held = SuiteState { trial: Some(mid), ..state };
        assert(state.after(before) == held);
        if needs_delay(first, batches.len()) {
            let paused = before.push(Event::Slept);
            assert(paused.drop_last() =~= before);
            assert(paused.push(last).drop_last() =~= paused);
            assert(state.after(paused) == held.next(Event::Slept));
            assert(begin.after(paused) == mid.next(Event::Slept));
            assert(state.after(paused.push(last)) == held.next(Event::Slept).next(last));
            assert(begin.after(paused.push(last)) == mid.next(Event::Slept).next(last));
        } else {
            assert(before.push(last).drop_last() =~= before);
            assert(state.after(before.push(last)) == held.next(last));
            assert(begin.after(before.push(last)) == mid.next(last));
        }
    }
}

/// A whole suite, run as it asks and with successes only: after the
/// reports of its first tests, the suite holds one result for each of
/// them, in their order, the mean and the deviation of the times of that
/// test's batches; and it stands at the start of the test that follows,
/// or is over if none does.
pub proof fn lemma_clean_suite(
    tests: Seq<Test>,
    policy: OrderPolicy,
    title: Seq<char>,
    reports: Seq<Seq<Event>>,
)
    requires
        clean_reports(tests, reports),
    ensures
        ({
            let end = SuiteState::start(tests, policy, title).after(suite_obedient(reports));
            &&& end.wf()
            &&& end == end.entered()
            &&& end.tests == tests
            &&& end.policy == policy
            &&& end.title == title
            &&& end.results.len() == reports.len()
            &&& forall|i: int|
                0 <= i < reports.len() ==> {
                    &&& end.history[i] == times_of(#[trigger] reports[i])
                    &&& end.results[i].0 == spec_mean(times_of(reports[i]))
                    &&& end.results[i].1 == spec_stddev(times_of(reports[i]))
                }
            &&& reports.len() == tests.len() ==> end.finished()
        }),
    decreases reports.len(),
{
    let begin = SuiteState::start(tests, policy, title);
    if reports.len() == 0 {
        if tests.len() > 0 {
            lemma_start_not_finished(tests[0], true, policy);
        }
    } else {
        let front = reports.drop_last();
        let batches = reports.last();
        lemma_clean_suite(tests, policy, title, front);
        let mid = begin.after(suite_obedient(front));
        let events = obedient(reports.len() == 1, batches);
        lemma_after_both(begin, suite_obedient(front), events);
        assert(reports[reports.len() - 1].len() == tests[reports.len() - 1].repeats);
        lemma_clean_test(mid, batches);
        lemma_statistic_defined(times_of(batches));
        let end = begin.after(suite_obedient(reports));
        if end.results.len() < tests.len() {
            lemma_start_not_finished(tests[end.results.len() as int], false, policy);
        }
        assert forall|i: int| 0 <= i < reports.len() implies {
            &&& end.history[i] == times_of(#[trigger] reports[i])
            &&& end.results[i].0 == spec_mean(times_of(reports[i]))
            &&& end.results[i].1 == spec_stddev(times_of(reports[i]))
        } by {
            if i < front.len() {
                assert(front[i] == reports[i]);
            }
        }
    }
}

} // verus!
