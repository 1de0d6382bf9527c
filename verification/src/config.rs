//! The run configuration: one immutable value constructed before any row
//! is processed, consumed uniformly by the pipeline.

use vstd::prelude::*;

use crate::parser::Parser;

verus! {

/// The smallest batch size a run may use.
pub const BATCH_SIZE_MIN: usize = 1;

/// The provider's hard upper bound on items per batch write.
pub const BATCH_SIZE_MAX: usize = 25;

/// The smallest inter-batch delay, in milliseconds.
pub const BATCH_INTERVAL_MIN: usize = 0;

/// The largest inter-batch delay, in milliseconds.
pub const BATCH_INTERVAL_MAX: usize = 30000;

/// The whole run's settings, immutable for the run's lifetime.
#[derive(Debug, PartialEq, Eq)]
pub struct Config {
    pub region: String,
    pub table_name: String,
    pub batch_size: usize,
    pub batch_interval: u64,
    pub should_preview_record: bool,
    pub enable_log: bool,
    pub allow_set: bool,
    pub allow_null: bool,
}

/// Whether the bounded settings lie within the provider's limits.
pub open spec fn config_valid(c: &Config) -> bool {
    &&& BATCH_SIZE_MIN <= c.batch_size <= BATCH_SIZE_MAX
    &&& c.batch_interval <= BATCH_INTERVAL_MAX as u64
}

impl Config {
    /// Checks the bounded settings against the provider's limits.
    pub fn validate(&self) -> (r: bool)
        ensures
            r == config_valid(self),
    {
        BATCH_SIZE_MIN <= self.batch_size && self.batch_size <= BATCH_SIZE_MAX
            && self.batch_interval <= BATCH_INTERVAL_MAX as u64
    }

    /// The inference configuration this run uses.
    pub fn parser(&self) -> (r: Parser)
        ensures
            r.allow_set == self.allow_set,
            r.allow_null == self.allow_null,
    {
        Parser { allow_set: self.allow_set, allow_null: self.allow_null }
    }
}

/// Accepts a value exactly when it lies in the closed range; the caller
/// decides what a rejection aborts.
pub fn check_range(input: usize, lower_bound: usize, upper_bound: usize) -> (r: Option<usize>)
    ensures
        r == (if lower_bound <= input && input <= upper_bound {
            Some(input)
        } else {
            None::<usize>
        }),
{
    if lower_bound <= input && input <= upper_bound {
        Some(input)
    } else {
        None
    }
}

/// Reads a yes-or-no answer: an empty answer keeps the default, anything
/// starting with `y` (either case) means yes, all else means no.
pub fn interpret_yes_no(answer: &Vec<char>, default: bool) -> (r: bool)
    ensures
        r == (if answer@.len() == 0 {
            default
        } else {
            answer@[0] == 'y' || answer@[0] == 'Y'
        }),
{
    if answer.len() == 0 {
        default
    } else {
        answer[0] == 'y' || answer[0] == 'Y'
    }
}

} // verus!
