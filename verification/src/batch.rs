//! One batch of requests behind a sliding window: which request goes out
//! next, how many may be under way, and in what order the outcomes are
//! handed back.
//!
//! A batch sends nothing itself. It says which request is to be sent, is
//! told which request came back with what, and hands the outcomes over
//! once every request is back.

use vstd::prelude::*;
use crate::outcome::RequestOutcome;

verus! {

/// In what order a batch hands its outcomes back.
#[derive(Clone, Copy, Debug, PartialEq, Eq, Structural)]
pub enum OrderPolicy {
    /// In the order of the requests, whenever each came back.
    Ordered,
    /// In the order in which they came back.
    Unordered,
}

/// What a batch asks for.
#[derive(Clone, Copy, Debug, PartialEq, Eq, Structural)]
pub enum BatchAction {
    /// Send the request with this index; the window has room for it.
    Dispatch { index: usize },
    /// Send nothing; wait for a request that is under way.
    Wait,
    /// Every request is back: the outcomes are there to be taken.
    Done,
    /// An exchange did not complete: the batch is given up.
    Abort,
}

/// A batch as contracts see it.
pub struct BatchState {
    /// In what order the outcomes are handed back.
    pub policy: OrderPolicy,
    /// How many requests may be under way at once.
    pub limit: nat,
    /// The address of each request.
    pub urls: Seq<String>,
    /// How many requests were sent: those with an index below this.
    pub issued: nat,
    /// The requests that came back, in the order in which they did.
    pub order: Seq<int>,
    /// What came back, by request.
    pub reported: Map<int, RequestOutcome>,
    /// Whether an exchange did not complete.
    pub failed: bool,
}

impl BatchState {
    /// A batch of which nothing is sent yet.
    pub open spec fn start(limit: nat, urls: Seq<String>, policy: OrderPolicy) -> BatchState {
        BatchState {
            policy,
            limit,
            urls,
            issued: 0,
            order: Seq::empty(),
            reported: Map::empty(),
            failed: false,
        }
    }

    /// How many requests are under way: sent, and not back.
    pub open spec fn in_flight(self) -> int {
        self.issued - self.order.len()
    }

    /// Whether the request `index` is under way.
    pub open spec fn outstanding(self, index: int) -> bool {
        0 <= index < self.issued && !self.reported.dom().contains(index)
    }

    /// Whether every request is back.
    pub open spec fn complete(self) -> bool {
        !self.failed && self.order.len() == self.urls.len()
    }

    /// Whether the next request may go out: there is one, and the window
    /// has room.
    pub open spec fn can_issue(self) -> bool {
        !self.failed && self.issued < self.urls.len() && self.in_flight() < self.limit
    }

    /// What the batch asks for where it stands.
    pub open spec fn advice(self) -> BatchAction {
        if self.failed {
            BatchAction::Abort
        } else if self.can_issue() {
            BatchAction::Dispatch { index: self.issued as usize }
        } else if self.in_flight() > 0 {
            BatchAction::Wait
        } else {
            BatchAction::Done
        }
    }

    /// The batch after it gave its advice: a request that it asked to be
    /// sent counts as sent.
    pub open spec fn advanced(self) -> BatchState {
        if self.can_issue() {
            BatchState { issued: self.issued + 1, ..self }
        } else {
            self
        }
    }

    /// Whether the batch waits for the request `index`.
    pub open spec fn accepts(self, index: int) -> bool {
        !self.failed && self.outstanding(index)
    }

    /// The batch after the request `index` came back with `outcome`. For a
    /// request that the batch does not wait for, nothing changes.
    pub open spec fn completed(self, index: int, outcome: RequestOutcome) -> BatchState {
        if self.accepts(index) {
            BatchState {
                order: self.order.push(index),
                reported: self.reported.insert(index, outcome),
                ..self
            }
        } else {
            self
        }
    }

    /// The batch after the exchange of the request `index` did not
    /// complete. For a request that the batch does not wait for, nothing
    /// changes.
    pub open spec fn broken(self, index: int) -> BatchState {
        if self.accepts(index) {
            BatchState { failed: true, ..self }
        } else {
            self
        }
    }

    /// The outcomes in the order of the requests.
    pub open spec fn indexed_outcomes(self) -> Seq<RequestOutcome> {
        Seq::new(self.urls.len(), |i: int| self.reported[i])
    }

    /// The outcomes in the order in which they came back.
    pub open spec fn arrival_outcomes(self) -> Seq<RequestOutcome> {
        Seq::new(self.order.len(), |k: int| self.reported[self.order[k]])
    }

    /// The outcomes as the batch hands them back.
    pub open spec fn outcomes(self) -> Seq<RequestOutcome> {
        match self.policy {
            OrderPolicy::Ordered => self.indexed_outcomes(),
            OrderPolicy::Unordered => self.arrival_outcomes(),
        }
    }

    /// What holds of a batch at every moment. The window is never
    /// overfull, and no request comes back twice or before it was sent.
    pub open spec fn wf(self) -> bool {
        &&& self.limit >= 1
        &&& self.issued <= self.urls.len()
        &&& self.order.len() <= self.issued
        &&& self.in_flight() <= self.limit
        &&& self.order.no_duplicates()
        &&& forall|k: int| 0 <= k < self.order.len() ==> 0 <= #[trigger] self.order[k] < self.issued
        &&& forall|i: int| #[trigger] self.reported.dom().contains(i) <==> self.order.contains(i)
    }
}

/// A batch of requests and its window.
pub struct Batch {
    policy: OrderPolicy,
    limit: usize,
    urls: Vec<String>,
    issued: usize,
    completed: usize,
    /// For each request, whether it is under way.
    pending: Vec<bool>,
    /// With `Ordered`: a place for each request's outcome.
    slots: Vec<RequestOutcome>,
    /// With `Unordered`: the outcomes as they came.
    queue: Vec<RequestOutcome>,
    failed: bool,
    order: Ghost<Seq<int>>,
    reported: Ghost<Map<int, RequestOutcome>>,
}

impl View for Batch {
    type V = BatchState;

    closed spec fn view(&self) -> BatchState {
        BatchState {
            policy: self.policy,
            limit: self.limit as nat,
            urls: self.urls@,
            issued: self.issued as nat,
            order: self.order@,
            reported: self.reported@,
            failed: self.failed,
        }
    }
}

/// So many flags, none of them set.
fn cleared(count: usize) -> (flags: Vec<bool>)
    ensures
        flags@.len() == count,
        forall|i: int| 0 <= i < count ==> !flags@[i],
{
    let mut flags: Vec<bool> = Vec::new();
    let mut i: usize = 0;
    while i < count
        invariant
            0 <= i <= count,
            flags@.len() == i,
            forall|j: int| 0 <= j < i ==> !flags@[j],
        decreases count - i,
    {
        flags.push(false);
        i = i + 1;
    }
    flags
}

/// So many places, each to be filled later.
fn places(count: usize) -> (slots: Vec<RequestOutcome>)
    ensures
        slots@.len() == count,
{
    let mut slots: Vec<RequestOutcome> = Vec::new();
    let mut i: usize = 0;
    while i < count
        invariant
            0 <= i <= count,
            slots@.len() == i,
        decreases count - i,
    {
        slots.push(RequestOutcome { status: 0, body: String::new() });
        i = i + 1;
    }
    slots
}

impl Batch {
    /// Whether what the batch holds is what its history says.
    pub closed spec fn stored(&self) -> bool {
        &&& self.completed == self.order@.len()
        &&& self.pending@.len() == self.urls@.len()
        &&& forall|i: int|
            0 <= i < self.pending@.len() ==> (#[trigger] self.pending@[i] <==> self@.outstanding(i))
        &&& match self.policy {
            OrderPolicy::Ordered => {
                &&& self.slots@.len() == self.urls@.len()
                &&& forall|i: int| #[trigger]
                    self.reported@.dom().contains(i) ==> self.slots@[i] == self.reported@[i]
            },
            OrderPolicy::Unordered => self.queue@ =~= self@.arrival_outcomes(),
        }
    }

    /// What holds of a batch at every moment.
    pub open spec fn wf(&self) -> bool {
        self@.wf() && self.stored()
    }

    /// A batch of one request for each address, of which at most `limit`
    /// are under way at once.
    pub fn new(limit: usize, urls: Vec<String>, policy: OrderPolicy) -> (batch: Self)
        requires
            limit >= 1,
        ensures
            batch@ == BatchState::start(limit as nat, urls@, policy),
            batch.wf(),
    {
        let pending = cleared(urls.len());
        let slots = match policy {
            OrderPolicy::Ordered => places(urls.len()),
            OrderPolicy::Unordered => Vec::new(),
        };
        Batch {
            policy,
            limit,
            urls,
            issued: 0,
            completed: 0,
            pending,
            slots,
            queue: Vec::new(),
            failed: false,
            order: Ghost(Seq::empty()),
            reported: Ghost(Map::empty()),
        }
    }

    /// Says what is to be done next. A request that the batch asks to be
    /// sent takes its place in the window at once.
    pub fn advance(&mut self) -> (action: BatchAction)
        requires
            old(self).wf(),
        ensures
            action == old(self)@.advice(),
            final(self)@ == old(self)@.advanced(),
            final(self).wf(),
    {
        if self.failed {
            BatchAction::Abort
        } else if self.issued < self.urls.len() && self.issued - self.completed < self.limit {
            let index: usize = self.issued;
            proof {
                if self.reported@.dom().contains(index as int) {
                    let k = choose|k: int|
                        0 <= k < self.order@.len() && self.order@[k] == index as int;
                    assert(self.order@[k] < self.issued);
                }
            }
            self.pending.set(index, true);
            self.issued = index + 1;
            BatchAction::Dispatch { index }
        } else if self.completed < self.issued {
            BatchAction::Wait
        } else {
            BatchAction::Done
        }
    }

    /// Takes in what came back for the request `index`. Tells whether the
    /// batch was waiting for that request; if it was not, nothing changes.
    pub fn complete(&mut self, index: usize, outcome: RequestOutcome) -> (accepted: bool)
        requires
            old(self).wf(),
        ensures
            accepted == old(self)@.accepts(index as int),
            final(self)@ == old(self)@.completed(index as int, outcome),
            final(self).wf(),
    {
        if self.failed || index >= self.pending.len() {
            return false;
        }
        if !self.pending[index] {
            return false;
        }
        let ghost before = self@;
        proof {
            lemma_completion_fits(before, index as int, outcome);
        }
        self.pending.set(index, false);
        self.completed = self.completed + 1;
        proof {
            self.order@ = self.order@.push(index as int);
            self.reported@ = self.reported@.insert(index as int, outcome);
        }
        match self.policy {
            OrderPolicy::Ordered => {
                self.slots.set(index, outcome);
            },
            OrderPolicy::Unordered => {
                self.queue.push(outcome);
                assert(self.queue@ =~= self@.arrival_outcomes()) by {
                    let after = self@;
                    assert forall|k: int| 0 <= k < before.order.len() implies #[trigger]
                        after.reported[after.order[k]] == before.reported[before.order[k]] by {
                        assert(before.order.contains(before.order[k]));
                    }
                }
            },
        }
        true
    }

    /// Takes in that the exchange of the request `index` did not complete.
    /// Tells whether the batch was waiting for that request; if it was
    /// not, nothing changes.
    pub fn fail(&mut self, index: usize) -> (accepted: bool)
        requires
            old(self).wf(),
        ensures
            accepted == old(self)@.accepts(index as int),
            final(self)@ == old(self)@.broken(index as int),
            final(self).wf(),
    {
        if self.failed || index >= self.pending.len() {
            return false;
        }
        if !self.pending[index] {
            return false;
        }
        self.failed = true;
        true
    }

    /// Hands the outcomes over, once every request is back: with
    /// `Ordered` each at the place of its request, with `Unordered` in the
    /// order in which they came back. Before that, nothing.
    pub fn finish(self) -> (outcomes: Option<Vec<RequestOutcome>>)
        requires
            self.wf(),
        ensures
            outcomes is Some <==> self@.complete(),
            outcomes matches Some(v) ==> v@ == self@.outcomes(),
    {
        if self.failed || self.completed < self.urls.len() {
            None
        } else {
            proof {
                lemma_complete_covers(self@);
            }
            match self.policy {
                OrderPolicy::Ordered => {
                    assert forall|i: int| 0 <= i < self.urls@.len() implies self.slots@[i]
                        == self@.indexed_outcomes()[i] by {
                        assert(self@.reported.dom().contains(i));
                    }
                    assert(self.slots@ =~= self@.indexed_outcomes());
                    Some(self.slots)
                },
                OrderPolicy::Unordered => Some(self.queue),
            }
        }
    }

    /// How many requests are under way. Never more than the limit.
    pub fn in_flight(&self) -> (n: usize)
        requires
            self.wf(),
        ensures
            n == self@.in_flight(),
            n <= self@.limit,
    {
        self.issued - self.completed
    }

    /// How many requests may be under way at once.
    pub fn limit(&self) -> (n: usize)
        ensures
            n == self@.limit,
    {
        self.limit
    }

    /// In what order the outcomes are handed back.
    pub fn policy(&self) -> (p: OrderPolicy)
        ensures
            p == self@.policy,
    {
        self.policy
    }

    /// The address of each request.
    pub fn urls(&self) -> (urls: &Vec<String>)
        ensures
            urls@ == self@.urls,
    {
        &self.urls
    }
}

/// A request that comes back while the batch waits for it leaves the batch
/// as it should be: the request was sent, and had not come back before.
pub proof fn lemma_completion_fits(state: BatchState, index: int, outcome: RequestOutcome)
    requires
        state.wf(),
        state.accepts(index),
    ensures
        state.completed(index, outcome).wf(),
        state.completed(index, outcome).in_flight() == state.in_flight() - 1,
{
    let after = state.completed(index, outcome);
    assert(!state.order.contains(index));
    assert(state.order.len() < state.issued) by {
        lemma_outstanding_count(state);
        assert(state.outstanding_set().contains(index));
        if state.outstanding_set().len() == 0 {
            state.outstanding_set().lemma_len0_is_empty();
        }
    }
    assert(after.order.no_duplicates()) by {
        assert forall|a: int, b: int|
            0 <= a < after.order.len() && 0 <= b < after.order.len() && a != b implies after.order[a]
            != after.order[b] by {
            if a < state.order.len() {
                assert(state.order.contains(state.order[a]));
            }
            if b < state.order.len() {
                assert(state.order.contains(state.order[b]));
            }
        }
    }
    assert forall|i: int| #[trigger] after.reported.dom().contains(i) <==> after.order.contains(
        i,
    ) by {
        if after.order.contains(i) {
            let k = choose|k: int| 0 <= k < after.order.len() && after.order[k] == i;
            if k < state.order.len() {
                assert(state.order.contains(i));
            }
        }
        if state.order.contains(i) {
            let k = choose|k: int| 0 <= k < state.order.len() && state.order[k] == i;
            assert(after.order[k] == i);
        }
        if i == index {
            assert(after.order[state.order.len() as int] == i);
        }
    }
}

impl BatchState {
    /// The requests that are under way.
    pub open spec fn outstanding_set(self) -> Set<int> {
        Set::new(|i: int| self.outstanding(i))
    }
}

/// The requests under way are as many as were sent and are not back: so
/// they are never more than the window allows.
pub proof fn lemma_outstanding_count(state: BatchState)
    requires
        state.wf(),
    ensures
        state.outstanding_set().finite(),
        state.outstanding_set().len() == state.in_flight(),
        state.outstanding_set().len() <= state.limit,
{
    let sent = vstd::set_lib::set_int_range(0, state.issued as int);
    let back = state.order.to_set();
    vstd::set_lib::lemma_int_range(0, state.issued as int);
    vstd::seq_lib::seq_to_set_is_finite(state.order);
    state.order.unique_seq_to_set();
    assert(back.subset_of(sent)) by {
        assert forall|i: int| back.contains(i) implies sent.contains(i) by {
            let k = choose|k: int| 0 <= k < state.order.len() && state.order[k] == i;
            assert(0 <= state.order[k] < state.issued);
        }
    }
    assert(sent.intersect(back) =~= back);
    vstd::set_lib::lemma_set_difference_len(sent, back);
    assert(state.outstanding_set() =~= sent.difference(back));
}

/// Once as many requests are back as there are, each of them is back.
pub proof fn lemma_complete_covers(state: BatchState)
    requires
        state.wf(),
        state.order.len() == state.urls.len(),
    ensures
        state.issued == state.urls.len(),
        forall|i: int| 0 <= i < state.urls.len() ==> state.reported.dom().contains(i),
        forall|i: int| 0 <= i < state.urls.len() ==> state.order.contains(i),
{
    lemma_outstanding_count(state);
    assert forall|i: int| 0 <= i < state.urls.len() implies state.reported.dom().contains(i) by {
        if !state.reported.dom().contains(i) {
            assert(state.outstanding_set().contains(i));
            state.outstanding_set().lemma_len0_is_empty();
        }
    }
    assert forall|i: int| 0 <= i < state.urls.len() implies state.order.contains(i) by {
        assert(state.reported.dom().contains(i));
    }
}

/// A batch is never at a loss: it waits only while a request is under
/// way, it is done only once every request is back, it gives up only
/// after an exchange that did not complete, and it sends a request only
/// into a window with room, where that request is then under way.
pub proof fn lemma_never_stuck(state: BatchState)
    requires
        state.wf(),
    ensures
        state.advice() == BatchAction::Wait ==> exists|i: int| state.outstanding(i),
        state.advice() == BatchAction::Done ==> state.complete(),
        state.advice() == BatchAction::Abort <==> state.failed,
        state.advice() is Dispatch ==> state.in_flight() < state.limit
            && state.advanced().outstanding(state.issued as int),
        state.advanced().wf(),
{
    lemma_outstanding_count(state);
    if state.advice() == BatchAction::Wait {
        assert(state.outstanding_set().len() > 0);
        let i = state.outstanding_set().choose();
        assert(state.outstanding_set().contains(i));
        assert(state.outstanding(i));
    }
    if state.can_issue() {
        if state.reported.dom().contains(state.issued as int) {
            let k = choose|k: int| 0 <= k < state.order.len() && state.order[k] == state.issued;
            assert(state.order[k] < state.issued);
        }
    }
}

/// The window slides: when a request comes back, whichever it is, and
/// requests are left to send, the next one may go out at once.
pub proof fn lemma_slot_freed(state: BatchState, index: int, outcome: RequestOutcome)
    requires
        state.wf(),
        state.accepts(index),
        state.issued < state.urls.len(),
    ensures
        state.completed(index, outcome).can_issue(),
        state.completed(index, outcome).advice() == (BatchAction::Dispatch {
            index: state.issued as usize,
        }),
{
    lemma_completion_fits(state, index, outcome);
}

/// Values picked through a sequence that holds each place once are the
/// same values, in another order.
proof fn lemma_picked_in_turn<T>(order: Seq<int>, values: Seq<T>)
    requires
        order.len() == values.len(),
        order.no_duplicates(),
        forall|k: int| 0 <= k < order.len() ==> 0 <= #[trigger] order[k] < order.len(),
        forall|i: int| 0 <= i < order.len() ==> order.contains(i),
    ensures
        Seq::new(order.len(), |k: int| values[order[k]]).to_multiset() == values.to_multiset(),
    decreases order.len(),
{
    broadcast use vstd::multiset::group_multiset_axioms;

    let n = order.len() as int;
    let picked = Seq::new(order.len(), |k: int| values[order[k]]);
    if n == 0 {
        assert(picked =~= values);
    } else {
        assert(order.contains(n - 1));
        let p = choose|p: int| 0 <= p < n && order[p] == n - 1;
        let rest = order.remove(p);
        let front = values.drop_last();
        assert(rest.no_duplicates()) by {
            assert forall|a: int, b: int|
                0 <= a < rest.len() && 0 <= b < rest.len() && a != b implies rest[a] != rest[b] by {
                let a0 = if a < p { a } else { a + 1 };
                let b0 = if b < p { b } else { b + 1 };
                assert(rest[a] == order[a0]);
                assert(rest[b] == order[b0]);
            }
        }
        assert forall|k: int| 0 <= k < rest.len() implies 0 <= #[trigger] rest[k] < rest.len() by {
            let k0 = if k < p { k } else { k + 1 };
            assert(rest[k] == order[k0]);
            assert(order[k0] != order[p]);
        }
        assert forall|i: int| 0 <= i < rest.len() implies rest.contains(i) by {
            assert(order.contains(i));
            let k0 = choose|k0: int| 0 <= k0 < n && order[k0] == i;
            let k = if k0 < p { k0 } else { k0 - 1 };
            assert(rest[k] == i);
        }
        lemma_picked_in_turn(rest, front);
        let fewer = Seq::new(rest.len(), |k: int| front[rest[k]]);
        assert(picked.remove(p) =~= fewer) by {
            assert forall|k: int| 0 <= k < fewer.len() implies picked.remove(p)[k] == fewer[k] by {
                let k0 = if k < p { k } else { k + 1 };
                assert(rest[k] == order[k0]);
                assert(order[k0] != order[p]);
            }
        }
        assert(values =~= front.push(values[n - 1]));
        vstd::seq_lib::to_multiset_remove(picked, p);
        vstd::seq_lib::to_multiset_build(front, values[n - 1]);
        vstd::seq_lib::to_multiset_contains(picked, picked[p]);
        assert(picked.contains(picked[p]));
        assert(picked.to_multiset() =~= picked.to_multiset().remove(picked[p]).insert(picked[p]));
    }
}

/// Once every request is back, the outcomes in the order in which they
/// came back are the outcomes in the order of the requests, each as often
/// as there: none is lost and none comes twice, whatever the policy.
pub proof fn lemma_same_outcomes(state: BatchState)
    requires
        state.wf(),
        state.complete(),
    ensures
        state.outcomes().len() == state.urls.len(),
        state.arrival_outcomes().to_multiset() == state.indexed_outcomes().to_multiset(),
        state.outcomes().to_multiset() == state.indexed_outcomes().to_multiset(),
{
    lemma_complete_covers(state);
    let values = state.indexed_outcomes();
    lemma_picked_in_turn(state.order, values);
    assert(state.arrival_outcomes() =~= Seq::new(
        state.order.len(),
        |k: int| values[state.order[k]],
    ));
}

/// With `Ordered`, what is handed back at a place is what came back for
/// the request of that place, whenever it came.
pub proof fn lemma_ordered_by_request(state: BatchState, k: int)
    requires
        state.wf(),
        state.complete(),
        state.policy == OrderPolicy::Ordered,
        0 <= k < state.order.len(),
    ensures
        0 <= state.order[k] < state.outcomes().len(),
        state.outcomes()[state.order[k]] == state.reported[state.order[k]],
{
    lemma_complete_covers(state);
}

} // verus!
