//! The description of a benchmark: what one test asks for.

use vstd::prelude::*;
use crate::text::{append_decimal, decimal};

verus! {

/// One round of a benchmark: a batch of identical requests, repeated.
#[derive(Debug, PartialEq, Eq)]
pub struct Test {
    /// What the test is about; shown, never read.
    pub label: String,
    /// The address that every request of the test goes to.
    pub url_get: String,
    /// How many requests one trial sends.
    pub requests_number: usize,
    /// How many of them may be under way at once.
    pub concurrent_requests: usize,
    /// How many trials the test runs.
    pub repeats: usize,
    /// The pause before a trial, in seconds.
    pub delay_s: u64,
}

impl Clone for Test {
    fn clone(&self) -> (r: Self)
        ensures
            r == *self,
    {
        Test {
            label: self.label.clone(),
            url_get: self.url_get.clone(),
            requests_number: self.requests_number,
            concurrent_requests: self.concurrent_requests,
            repeats: self.repeats,
            delay_s: self.delay_s,
        }
    }
}

impl Test {
    /// What `to_string` writes: the label, then each setting on a line of
    /// its own.
    pub open spec fn description(self) -> Seq<char> {
        self.label@ + "\nurl_get: "@ + self.url_get@ + "\nrequests_number: "@ + decimal(
            self.requests_number as nat,
        ) + "\nconcurrent_requests: "@ + decimal(self.concurrent_requests as nat) + "\nrepeats: "@
            + decimal(self.repeats as nat) + "\ndelay: "@ + decimal(self.delay_s as nat) + "s"@
    }

    /// The test in words, for a person to read.
    pub fn to_string(&self) -> (text: String)
        ensures
            text@ == self.description(),
    {
        let mut text = self.label.clone();
        text.append("\nurl_get: ");
        text.append(self.url_get.as_str());
        text.append("\nrequests_number: ");
        append_decimal(&mut text, self.requests_number as u64);
        text.append("\nconcurrent_requests: ");
        append_decimal(&mut text, self.concurrent_requests as u64);
        text.append("\nrepeats: ");
        append_decimal(&mut text, self.repeats as u64);
        text.append("\ndelay: ");
        append_decimal(&mut text, self.delay_s);
        text.append("s");
        text
    }
}

/// A benchmark: its tests, in the order in which they run.
#[derive(Debug, PartialEq, Eq)]
pub struct Config {
    pub tests: Vec<Test>,
}

} // verus!
