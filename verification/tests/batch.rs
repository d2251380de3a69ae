use benchmark::batch::{Batch, BatchAction, OrderPolicy};
use benchmark::outcome::RequestOutcome;

fn urls_of(count: usize) -> Vec<String> {
    (0..count).map(|i| format!("http://localhost/{}", i)).collect()
}

fn tagged(index: usize) -> RequestOutcome {
    RequestOutcome { status: 200, body: format!("body of {}", index) }
}

/// Runs a batch to its end. Whenever the batch waits, `pick` chooses which
/// of the requests under way comes back. Returns the outcomes, the order in
/// which the requests came back, the order in which they were sent, and the
/// largest number of requests that were under way at once.
fn run(
    limit: usize,
    count: usize,
    policy: OrderPolicy,
    pick: &dyn Fn(&Vec<usize>) -> usize,
) -> (Vec<RequestOutcome>, Vec<usize>, Vec<usize>, usize) {
    let mut batch = Batch::new(limit, urls_of(count), policy);
    let mut under_way: Vec<usize> = Vec::new();
    let mut sent: Vec<usize> = Vec::new();
    let mut back: Vec<usize> = Vec::new();
    let mut most = 0;
    loop {
        match batch.advance() {
            BatchAction::Dispatch { index } => {
                under_way.push(index);
                sent.push(index);
            }
            BatchAction::Wait => {
                let index = under_way.remove(pick(&under_way));
                assert!(batch.complete(index, tagged(index)));
                back.push(index);
            }
            BatchAction::Done => break,
            BatchAction::Abort => panic!("no exchange was broken"),
        }
        assert_eq!(batch.in_flight(), under_way.len());
        assert!(batch.in_flight() <= limit);
        most = most.max(under_way.len());
    }
    assert!(under_way.is_empty());
    (batch.finish().unwrap(), back, sent, most)
}

fn oldest(_: &Vec<usize>) -> usize {
    0
}

fn newest(under_way: &Vec<usize>) -> usize {
    under_way.len() - 1
}

fn middle(under_way: &Vec<usize>) -> usize {
    under_way.len() / 2
}

#[test]
fn window_is_never_overfull() {
    for policy in [OrderPolicy::Ordered, OrderPolicy::Unordered] {
        for (limit, count) in [(1, 5), (2, 4), (3, 10), (10, 3), (4, 4), (50, 250)] {
            for pick in [oldest as fn(&Vec<usize>) -> usize, newest, middle] {
                let (outcomes, back, sent, most) = run(limit, count, policy, &pick);
                assert_eq!(outcomes.len(), count);
                assert_eq!(back.len(), count);
                // each request is sent once, in the order of the addresses
                assert_eq!(sent, (0..count).collect::<Vec<usize>>());
                // the window is used in full, and never more than that
                assert_eq!(most, limit.min(count));
            }
        }
    }
}

#[test]
fn ordered_outcomes_stand_at_their_requests() {
    for pick in [oldest as fn(&Vec<usize>) -> usize, newest, middle] {
        let (outcomes, back, _, _) = run(3, 10, OrderPolicy::Ordered, &pick);
        for (i, outcome) in outcomes.iter().enumerate() {
            assert_eq!(outcome, &tagged(i));
        }
        assert_eq!(back.len(), 10);
    }
    // the requests did come back in another order
    let (_, back, _, _) = run(3, 10, OrderPolicy::Ordered, &newest);
    assert_eq!(back, vec![2, 3, 4, 5, 6, 7, 8, 9, 1, 0]);
}

#[test]
fn unordered_outcomes_stand_as_they_came() {
    let (outcomes, back, _, _) = run(3, 10, OrderPolicy::Unordered, &newest);
    assert_eq!(back, vec![2, 3, 4, 5, 6, 7, 8, 9, 1, 0]);
    let expected: Vec<RequestOutcome> = back.iter().map(|i| tagged(*i)).collect();
    assert_eq!(outcomes, expected);

    let (outcomes, back, _, _) = run(4, 9, OrderPolicy::Unordered, &middle);
    let expected: Vec<RequestOutcome> = back.iter().map(|i| tagged(*i)).collect();
    assert_eq!(outcomes, expected);
    assert_ne!(back, (0..9).collect::<Vec<usize>>());
}

#[test]
fn unordered_outcomes_are_the_same_outcomes() {
    for pick in [oldest as fn(&Vec<usize>) -> usize, newest, middle] {
        let (mut unordered, _, _, _) = run(4, 25, OrderPolicy::Unordered, &pick);
        let (ordered, _, _, _) = run(4, 25, OrderPolicy::Ordered, &pick);
        unordered.sort_by_key(|outcome| outcome.body.clone());
        let mut sorted = ordered.clone();
        sorted.sort_by_key(|outcome| outcome.body.clone());
        assert_eq!(unordered, sorted);
        assert_eq!(ordered.len(), 25);
    }
}

#[test]
fn a_slot_is_free_as_soon_as_any_request_is_back() {
    let mut batch = Batch::new(2, urls_of(4), OrderPolicy::Ordered);
    assert_eq!(batch.advance(), BatchAction::Dispatch { index: 0 });
    assert_eq!(batch.advance(), BatchAction::Dispatch { index: 1 });
    assert_eq!(batch.advance(), BatchAction::Wait);
    assert_eq!(batch.advance(), BatchAction::Wait);
    assert_eq!(batch.in_flight(), 2);
    // the second request comes back before the first: the third goes out at once
    assert!(batch.complete(1, tagged(1)));
    assert_eq!(batch.in_flight(), 1);
    assert_eq!(batch.advance(), BatchAction::Dispatch { index: 2 });
    assert_eq!(batch.advance(), BatchAction::Wait);
    assert!(batch.complete(2, tagged(2)));
    assert_eq!(batch.advance(), BatchAction::Dispatch { index: 3 });
    assert_eq!(batch.advance(), BatchAction::Wait);
    assert!(batch.complete(0, tagged(0)));
    assert_eq!(batch.advance(), BatchAction::Wait);
    assert!(batch.complete(3, tagged(3)));
    assert_eq!(batch.advance(), BatchAction::Done);
    assert_eq!(batch.advance(), BatchAction::Done);
    assert_eq!(batch.finish(), Some(vec![tagged(0), tagged(1), tagged(2), tagged(3)]));
}

#[test]
fn empty_batch_is_done_at_once() {
    for policy in [OrderPolicy::Ordered, OrderPolicy::Unordered] {
        let mut batch = Batch::new(3, Vec::new(), policy);
        assert_eq!(batch.advance(), BatchAction::Done);
        assert_eq!(batch.in_flight(), 0);
        assert_eq!(batch.finish(), Some(Vec::new()));
    }
}

#[test]
fn batch_refuses_what_it_does_not_wait_for() {
    for policy in [OrderPolicy::Ordered, OrderPolicy::Unordered] {
        let mut batch = Batch::new(2, urls_of(3), policy);
        // nothing is sent yet
        assert!(!batch.complete(0, tagged(0)));
        assert!(!batch.fail(0));
        assert_eq!(batch.advance(), BatchAction::Dispatch { index: 0 });
        // not sent, and not there at all
        assert!(!batch.complete(1, tagged(1)));
        assert!(!batch.complete(3, tagged(3)));
        assert!(!batch.complete(usize::MAX, tagged(3)));
        assert_eq!(batch.in_flight(), 1);
        assert!(batch.complete(0, tagged(0)));
        // back already
        assert!(!batch.complete(0, tagged(7)));
        assert!(!batch.fail(0));
        assert_eq!(batch.in_flight(), 0);
        assert_eq!(batch.advance(), BatchAction::Dispatch { index: 1 });
        assert_eq!(batch.advance(), BatchAction::Dispatch { index: 2 });
        assert!(batch.complete(2, tagged(2)));
        assert!(batch.complete(1, tagged(1)));
        assert_eq!(batch.advance(), BatchAction::Done);
        let outcomes = batch.finish().unwrap();
        match policy {
            OrderPolicy::Ordered => assert_eq!(outcomes, vec![tagged(0), tagged(1), tagged(2)]),
            OrderPolicy::Unordered => assert_eq!(outcomes, vec![tagged(0), tagged(2), tagged(1)]),
        }
    }
}

#[test]
fn unfinished_batch_hands_nothing_over() {
    let batch = Batch::new(2, urls_of(3), OrderPolicy::Ordered);
    assert_eq!(batch.finish(), None);

    let mut batch = Batch::new(2, urls_of(3), OrderPolicy::Unordered);
    batch.advance();
    batch.advance();
    batch.complete(0, tagged(0));
    batch.complete(1, tagged(1));
    assert_eq!(batch.finish(), None);
}

#[test]
fn broken_exchange_gives_the_batch_up() {
    for policy in [OrderPolicy::Ordered, OrderPolicy::Unordered] {
        let mut batch = Batch::new(2, urls_of(3), policy);
        assert_eq!(batch.advance(), BatchAction::Dispatch { index: 0 });
        assert_eq!(batch.advance(), BatchAction::Dispatch { index: 1 });
        assert!(batch.complete(0, tagged(0)));
        assert!(batch.fail(1));
        // nothing more is sent, and nothing more is taken in
        assert_eq!(batch.advance(), BatchAction::Abort);
        assert_eq!(batch.advance(), BatchAction::Abort);
        assert!(!batch.complete(1, tagged(1)));
        assert!(!batch.fail(1));
        assert_eq!(batch.finish(), None);
    }
}

#[test]
fn batch_keeps_its_settings() {
    let batch = Batch::new(7, urls_of(3), OrderPolicy::Unordered);
    assert_eq!(batch.limit(), 7);
    assert_eq!(batch.policy(), OrderPolicy::Unordered);
    assert_eq!(batch.urls(), &urls_of(3));
    assert_eq!(batch.in_flight(), 0);
}
