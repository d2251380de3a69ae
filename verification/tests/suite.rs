use benchmark::batch::{Batch, BatchAction, OrderPolicy};
use benchmark::config::Test;
use benchmark::outcome::{Failure, RequestOutcome};
use benchmark::suite::{SuiteAction, SuiteRunner};
use benchmark::trial::{Event, Phase};

fn test_of(label: &str, requests_number: usize, concurrent_requests: usize, repeats: usize, delay_s: u64) -> Test {
    Test {
        label: String::from(label),
        url_get: format!("http://localhost:8080/{}", label),
        requests_number,
        concurrent_requests,
        repeats,
        delay_s,
    }
}

/// A server that answers every request with one status, each request
/// taking one tick of a clock that counts the requests under way at once
/// as one. Returns the outcomes and the ticks that the batch took.
fn serve(concurrency: usize, urls: Vec<String>, policy: OrderPolicy, status: u16) -> (Vec<RequestOutcome>, u64) {
    let mut batch = Batch::new(concurrency, urls, policy);
    let mut under_way: Vec<usize> = Vec::new();
    let mut ticks = 0;
    loop {
        match batch.advance() {
            BatchAction::Dispatch { index } => under_way.push(index),
            BatchAction::Wait => {
                // every request under way completes within the tick
                ticks += 1;
                for index in under_way.drain(..) {
                    let body = batch.urls()[index].clone();
                    assert!(batch.complete(index, RequestOutcome { status, body }));
                }
            }
            BatchAction::Done => return (batch.finish().unwrap(), ticks),
            BatchAction::Abort => panic!("no exchange was broken"),
        }
    }
}

/// Runs a suite against `serve`; a tick is a millisecond. Returns what the
/// suite ended with, the pauses taken, and the number of batches sent.
fn run(tests: Vec<Test>, policy: OrderPolicy, status: u16) -> (Result<Vec<(u64, u64)>, Failure>, Vec<u64>, usize) {
    let mut suite = SuiteRunner::new(tests, policy, String::from("run"));
    let mut sleeps = Vec::new();
    let mut batches = 0;
    let mut action = suite.action();
    loop {
        match action {
            SuiteAction::Sleep { seconds } => {
                sleeps.push(seconds);
                action = suite.step(Event::Slept);
            }
            SuiteAction::Dispatch { concurrency, urls, policy: asked } => {
                assert_eq!(asked, policy);
                batches += 1;
                let (outcomes, ticks) = serve(concurrency, urls, asked, status);
                action = suite.step(Event::BatchDone { elapsed_ns: ticks * 1_000_000, outcomes });
            }
            SuiteAction::Finished => return (Ok(suite.into_results()), sleeps, batches),
            SuiteAction::Abort(failure) => return (Err(failure), sleeps, batches),
        }
    }
}

#[test]
fn two_tests_end_to_end() {
    for policy in [OrderPolicy::Ordered, OrderPolicy::Unordered] {
        let tests = vec![test_of("a", 4, 2, 1, 5), test_of("b", 4, 2, 1, 6)];
        let (results, sleeps, batches) = run(tests, policy, 200);
        // four requests, two at a time: two ticks; one sample: no deviation
        assert_eq!(results, Ok(vec![(2_000_000, 0), (2_000_000, 0)]));
        assert_eq!(batches, 2);
        // no pause before the first test, the second test's own before the second
        assert_eq!(sleeps, vec![6]);
    }
}

#[test]
fn results_come_in_the_order_of_the_tests() {
    let tests = vec![
        test_of("a", 6, 1, 2, 1),
        test_of("b", 6, 2, 3, 2),
        test_of("c", 6, 3, 1, 3),
        test_of("d", 6, 6, 2, 4),
    ];
    let (results, sleeps, batches) = run(tests, OrderPolicy::Ordered, 204);
    assert_eq!(
        results,
        Ok(vec![(6_000_000, 0), (3_000_000, 0), (2_000_000, 0), (1_000_000, 0)])
    );
    assert_eq!(batches, 8);
    // every trial waits but the very first one
    assert_eq!(sleeps, vec![1, 2, 2, 2, 3, 4, 4]);
}

#[test]
fn suite_follows_each_trial() {
    let mut suite = SuiteRunner::new(
        vec![test_of("a", 1, 1, 2, 1), test_of("b", 2, 2, 1, 9)],
        OrderPolicy::Unordered,
        String::from("Unordered buffer"),
    );
    assert_eq!(suite.tests().len(), 2);
    assert_eq!(suite.title(), "Unordered buffer");
    assert_eq!(suite.policy(), OrderPolicy::Unordered);
    assert_eq!(suite.current().unwrap().policy(), OrderPolicy::Unordered);
    assert!(suite.current().unwrap().first_in_suite());
    assert_eq!(suite.current().unwrap().test().label, "a");
    assert_eq!(suite.current().unwrap().phase(), Phase::Running);
    let ok = |n: usize| vec![RequestOutcome { status: 200, body: String::new() }; n];
    assert_eq!(
        suite.step(Event::BatchDone { elapsed_ns: 10, outcomes: ok(1) }),
        SuiteAction::Sleep { seconds: 1 }
    );
    assert_eq!(suite.current().unwrap().trials_done(), 1);
    assert_eq!(suite.results(), &vec![]);
    assert_eq!(
        suite.step(Event::Slept),
        SuiteAction::Dispatch {
            concurrency: 1,
            urls: vec![String::from("http://localhost:8080/a")],
            policy: OrderPolicy::Unordered,
        }
    );
    // the first test is over: its result is kept and the second test begins, with its pause
    assert_eq!(
        suite.step(Event::BatchDone { elapsed_ns: 30, outcomes: ok(1) }),
        SuiteAction::Sleep { seconds: 9 }
    );
    assert_eq!(suite.results(), &vec![(20, 10)]);
    assert_eq!(suite.current().unwrap().test().label, "b");
    assert_eq!(suite.current().unwrap().trials_done(), 0);
    assert!(!suite.current().unwrap().first_in_suite());
    assert_eq!(
        suite.step(Event::Slept),
        SuiteAction::Dispatch {
            concurrency: 2,
            urls: vec![String::from("http://localhost:8080/b"); 2],
            policy: OrderPolicy::Unordered,
        }
    );
    assert_eq!(
        suite.step(Event::BatchDone { elapsed_ns: 7, outcomes: ok(2) }),
        SuiteAction::Finished
    );
    assert!(suite.current().is_none());
    assert_eq!(suite.results(), &vec![(20, 10), (7, 0)]);
    // a suite that is over stays so
    assert_eq!(suite.step(Event::Slept), SuiteAction::Finished);
    assert_eq!(suite.step(Event::BatchFailed), SuiteAction::Finished);
    assert_eq!(suite.into_results(), vec![(20, 10), (7, 0)]);
}

#[test]
fn rejected_status_stops_the_suite() {
    let tests = vec![test_of("a", 4, 2, 3, 1), test_of("b", 4, 2, 3, 1)];
    let (results, sleeps, batches) = run(tests, OrderPolicy::Unordered, 503);
    assert_eq!(results, Err(Failure::UnsuccessfulStatus(503)));
    // the first batch was the last: no later trial and no later test ran
    assert_eq!(batches, 1);
    assert_eq!(sleeps, Vec::<u64>::new());
}

#[test]
fn rejected_status_in_a_later_test() {
    let mut suite = SuiteRunner::new(
        vec![test_of("a", 1, 1, 1, 1), test_of("b", 1, 1, 2, 1), test_of("c", 1, 1, 1, 1)],
        OrderPolicy::Ordered,
        String::new(),
    );
    let with = |status: u16| vec![RequestOutcome { status, body: String::new() }];
    suite.step(Event::BatchDone { elapsed_ns: 5, outcomes: with(200) });
    suite.step(Event::Slept);
    assert_eq!(
        suite.step(Event::BatchDone { elapsed_ns: 5, outcomes: with(404) }),
        SuiteAction::Abort(Failure::UnsuccessfulStatus(404))
    );
    // what was measured before stays; nothing is added
    assert_eq!(suite.results(), &vec![(5, 0)]);
    assert_eq!(suite.current().unwrap().test().label, "b");
    assert_eq!(suite.step(Event::Slept), SuiteAction::Abort(Failure::UnsuccessfulStatus(404)));
    assert_eq!(
        suite.step(Event::BatchDone { elapsed_ns: 5, outcomes: with(200) }),
        SuiteAction::Abort(Failure::UnsuccessfulStatus(404))
    );
    assert_eq!(suite.results(), &vec![(5, 0)]);
    assert_eq!(suite.current().unwrap().test().label, "b");
}

#[test]
fn broken_exchange_stops_the_suite() {
    let mut suite = SuiteRunner::new(
        vec![test_of("a", 1, 1, 1, 1), test_of("b", 1, 1, 1, 1)],
        OrderPolicy::Ordered,
        String::new(),
    );
    assert_eq!(suite.step(Event::BatchFailed), SuiteAction::Abort(Failure::ConnectionFailure));
    assert_eq!(suite.step(Event::Slept), SuiteAction::Abort(Failure::ConnectionFailure));
    assert_eq!(suite.into_results(), vec![]);
}

#[test]
fn test_without_repeats_stops_the_suite() {
    // at the start
    let (results, sleeps, batches) =
        run(vec![test_of("a", 4, 2, 0, 1), test_of("b", 4, 2, 1, 1)], OrderPolicy::Ordered, 200);
    assert_eq!(results, Err(Failure::EmptySampleSet));
    assert_eq!((sleeps.len(), batches), (0, 0));

    // after a test that ran
    let (results, sleeps, batches) = run(
        vec![test_of("a", 4, 2, 1, 1), test_of("b", 4, 2, 0, 1), test_of("c", 4, 2, 1, 1)],
        OrderPolicy::Ordered,
        200,
    );
    assert_eq!(results, Err(Failure::EmptySampleSet));
    assert_eq!((sleeps.len(), batches), (0, 1));
}

#[test]
fn suite_without_tests_is_over_at_once() {
    let mut suite = SuiteRunner::new(Vec::new(), OrderPolicy::Ordered, String::from("nothing"));
    assert_eq!(suite.action(), SuiteAction::Finished);
    assert!(suite.current().is_none());
    assert_eq!(suite.step(Event::Slept), SuiteAction::Finished);
    assert_eq!(suite.into_results(), vec![]);
}

#[test]
fn test_without_requests_is_timed_all_the_same() {
    let (results, sleeps, batches) =
        run(vec![test_of("a", 0, 2, 2, 1)], OrderPolicy::Ordered, 200);
    assert_eq!(results, Ok(vec![(0, 0)]));
    assert_eq!(sleeps, vec![1]);
    assert_eq!(batches, 2);
}
