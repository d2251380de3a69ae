//! A micro-benchmark harness for HTTP endpoints: the decisions of a
//! benchmark run, stated and proved over plain values.
//!
//! The library sends no request and keeps no time. A suite says what is to
//! be done next (pause, send a batch); a batch says which request goes out
//! next; and both are told what happened. What they decide, and what the
//! statistics of the measured times are, is proved here.

pub mod batch;
pub mod config;
pub mod outcome;
pub mod stats;
pub mod suite;
pub mod text;
pub mod trial;
pub mod wide;

pub use crate::batch::{Batch, BatchAction, OrderPolicy};
pub use crate::config::{Config, Test};
pub use crate::outcome::{Failure, RequestOutcome};
pub use crate::stats::statistic;
pub use crate::suite::{SuiteAction, SuiteRunner};
pub use crate::trial::{Event, Phase, TrialAction, TrialRunner};
