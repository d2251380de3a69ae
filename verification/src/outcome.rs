//! What one HTTP exchange hands back, and the ways in which a run fails.

use vstd::prelude::*;
use crate::text::{append_decimal, decimal};

verus! {

/// A completed HTTP exchange: the status code and the text of the body.
#[derive(Debug, PartialEq, Eq)]
pub struct RequestOutcome {
    pub status: u16,
    pub body: String,
}

impl Clone for RequestOutcome {
    fn clone(&self) -> (r: Self)
        ensures
            r == *self,
    {
        RequestOutcome { status: self.status, body: self.body.clone() }
    }
}

/// Why a run ends without a result. Each of them ends the whole run: there
/// is no retry and no partial result.
#[derive(Clone, Copy, Debug, PartialEq, Eq, Structural)]
pub enum Failure {
    /// A request could not be sent, or its response could not be read.
    ConnectionFailure,
    /// An exchange completed with this status, which is not a success.
    UnsuccessfulStatus(u16),
    /// A test asked for no trial, so there is nothing to take a mean of.
    EmptySampleSet,
}

/// The reason phrase of a status code: what `reqwest::StatusCode` holds as
/// the canonical reason of that code, and `<unknown status code>` for a
/// code of which it holds none.
pub uninterp spec fn reason_phrase(status: u16) -> Seq<char>;

/// A status code in words: the code, and behind a space its reason phrase.
/// A number that is no status code, below 100 or above 999, stands alone.
pub open spec fn status_text(status: u16) -> Seq<char> {
    if 100 <= status <= 999 {
        decimal(status as nat) + seq![' '] + reason_phrase(status)
    } else {
        decimal(status as nat)
    }
}

/// What `reqwest::StatusCode` writes as `Display`. Not proved: that
/// this is the code in decimal notation, a space, and the reason phrase of
/// the code. Only a code from 100 to 999 is one for `reqwest::StatusCode`.
#[verifier::external_body]
fn status_line(status: u16) -> (text: String)
    requires
        100 <= status <= 999,
    ensures
        text@ == decimal(status as nat) + seq![' '] + reason_phrase(status),
{
    match reqwest::StatusCode::from_u16(status) {
        Ok(code) => code.to_string(),
        Err(_) => String::new(),
    }
}

/// Writes a status code in words.
pub fn describe_status(status: u16) -> (text: String)
    ensures
        text@ == status_text(status),
{
    if 100 <= status && status <= 999 {
        status_line(status)
    } else {
        let mut text = String::new();
        append_decimal(&mut text, status as u64);
        assert(text@ =~= decimal(status as nat));
        text
    }
}

impl Failure {
    /// What a person is told of the failure.
    pub open spec fn message(self) -> Seq<char> {
        match self {
            Failure::ConnectionFailure => "No connection to the server, or no response from it."@,
            Failure::UnsuccessfulStatus(status) => status_text(status),
            Failure::EmptySampleSet => "Repeats equal zero"@,
        }
    }

    /// The failure in words, for a person to read.
    pub fn to_string(&self) -> (text: String)
        ensures
            text@ == self.message(),
    {
        match self {
            Failure::ConnectionFailure => String::from_str(
                "No connection to the server, or no response from it.",
            ),
            Failure::UnsuccessfulStatus(status) => describe_status(*status),
            Failure::EmptySampleSet => String::from_str("Repeats equal zero"),
        }
    }
}

/// Whether a status code reports success: the codes from 200 to 299.
pub open spec fn spec_is_success(status: u16) -> bool {
    200 <= status < 300
}

/// Tells whether `status` reports success.
pub fn is_success(status: u16) -> (r: bool)
    ensures
        r == spec_is_success(status),
{
    200 <= status && status < 300
}

/// Whether every outcome reports success.
pub open spec fn all_successful(outcomes: Seq<RequestOutcome>) -> bool {
    forall|i: int| 0 <= i < outcomes.len() ==> spec_is_success(#[trigger] outcomes[i].status)
}

/// The status of the first outcome that does not report success, if there
/// is one.
pub open spec fn first_rejected(outcomes: Seq<RequestOutcome>) -> Option<u16>
    decreases outcomes.len(),
{
    if outcomes.len() == 0 {
        None
    } else {
        match first_rejected(outcomes.drop_last()) {
            Some(status) => Some(status),
            None => if spec_is_success(outcomes.last().status) {
                None
            } else {
                Some(outcomes.last().status)
            },
        }
    }
}

/// `first_rejected` finds nothing exactly when every outcome is a success;
/// what it finds is the status at the first place that is not one.
pub proof fn lemma_first_rejected(outcomes: Seq<RequestOutcome>)
    ensures
        first_rejected(outcomes) is None <==> all_successful(outcomes),
        first_rejected(outcomes) matches Some(status) ==> exists|i: int|
            {
                &&& 0 <= i < outcomes.len()
                &&& #[trigger] outcomes[i].status == status
                &&& !spec_is_success(status)
                &&& all_successful(outcomes.take(i))
            },
    decreases outcomes.len(),
{
    if outcomes.len() > 0 {
        let front = outcomes.drop_last();
        lemma_first_rejected(front);
        assert(forall|i: int| 0 <= i < front.len() ==> front[i] == outcomes[i]);
        match first_rejected(front) {
            Some(status) => {
                let i = choose|i: int|
                    {
                        &&& 0 <= i < front.len()
                        &&& #[trigger] front[i].status == status
                        &&& !spec_is_success(status)
                        &&& all_successful(front.take(i))
                    };
                assert(front.take(i) =~= outcomes.take(i));
                assert(outcomes[i].status == status);
                assert(!all_successful(outcomes));
            },
            None => {
                if spec_is_success(outcomes.last().status) {
                    assert(all_successful(outcomes)) by {
                        assert forall|i: int| 0 <= i < outcomes.len() implies spec_is_success(
                            #[trigger] outcomes[i].status,
                        ) by {
                            if i < front.len() {
                                assert(front[i] == outcomes[i]);
                            }
                        }
                    }
                } else {
                    let i = outcomes.len() - 1;
                    assert(outcomes.take(i) =~= front);
                    assert(outcomes[i].status == outcomes.last().status);
                }
            },
        }
    }
}

/// Looks for an outcome that does not report success and returns the
/// status of the first one.
pub fn validate(outcomes: &Vec<RequestOutcome>) -> (r: Option<u16>)
    ensures
        r == first_rejected(outcomes@),
{
    let n: usize = outcomes.len();
    let mut i: usize = 0;
    while i < n
        invariant
            n == outcomes@.len(),
            0 <= i <= n,
            first_rejected(outcomes@.take(i as int)) is None,
        decreases n - i,
    {
        let status: u16 = outcomes[i].status;
        proof {
            assert(outcomes@.take(i + 1).drop_last() =~= outcomes@.take(i as int));
        }
        if !is_success(status) {
            proof {
                lemma_rejected_stays(outcomes@, i + 1);
            }
            return Some(status);
        }
        i = i + 1;
    }
    proof {
        assert(outcomes@.take(n as int) =~= outcomes@);
    }
    None
}

/// What was rejected among the first outcomes is what is rejected among
/// them all.
proof fn lemma_rejected_stays(outcomes: Seq<RequestOutcome>, k: int)
    requires
        0 <= k <= outcomes.len(),
        first_rejected(outcomes.take(k)) is Some,
    ensures
        first_rejected(outcomes) == first_rejected(outcomes.take(k)),
    decreases outcomes.len() - k,
{
    if k < outcomes.len() {
        assert(outcomes.take(k + 1).drop_last() =~= outcomes.take(k));
        lemma_rejected_stays(outcomes, k + 1);
    } else {
        assert(outcomes.take(k) =~= outcomes);
    }
}

} // verus!
