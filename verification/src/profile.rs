//! Counters for profiling calls into a data base.
//!
//! [`DBPerf`] wraps a data structure and keeps a [`PerfCounter`] for the
//! operations that are profiled. Measuring the time is left to the caller,
//! which adds the measured durations to the counters.

use crate::decorator::{Decorator, MutDecorator};
use std::time::Duration;
use vstd::prelude::*;

verus! {

/// `Duration::ZERO`: the empty duration. Nothing is stated about the value.
#[verifier::external_body]
fn zero_duration() -> (res: Duration) {
    Duration::ZERO
}

/// `Duration::clone`: `Duration` is `Copy`, and its clone is the same duration.
pub assume_specification[ <Duration as Clone>::clone ](d: &Duration) -> (res: Duration)
    ensures
        res == *d,
;

/// Statistics on calls of a single function.
#[derive(Debug, Clone)]
pub struct PerfCounter {
    /// Number of function calls.
    pub num_calls: usize,
    /// Total time spent in this function.
    pub duration: Duration,
}

impl Default for PerfCounter {
    fn default() -> (res: Self)
        ensures
            res.num_calls == 0,
    {
        PerfCounter { num_calls: 0, duration: zero_duration() }
    }
}

impl PerfCounter {
    /// Count one more call.
    pub fn register_call(&mut self)
        requires
            old(self).num_calls < usize::MAX,
        ensures
            final(self).num_calls == old(self).num_calls + 1,
            final(self).duration == old(self).duration,
    {
        self.num_calls = self.num_calls + 1;
    }
}

/// Statistics on function calls of the data base.
#[derive(Debug, Clone)]
pub struct PerfCounters {
    /// Performance counters of `insert_shape()`.
    pub insert_shape: PerfCounter,
}

impl Default for PerfCounters {
    fn default() -> (res: Self)
        ensures
            res.insert_shape.num_calls == 0,
    {
        PerfCounters { insert_shape: PerfCounter::default() }
    }
}

/// Wrapper around a data structure that counts the calls of the profiled functions.
pub struct DBPerf<'a, T> {
    /// Underlying data structure.
    chip: &'a mut T,
    perf_data: PerfCounters,
}

impl<'a, T> DBPerf<'a, T> {
    /// The performance counters.
    pub closed spec fn counters(&self) -> PerfCounters {
        self.perf_data
    }

    /// Wrap the `chip` structure into a performance counter. All counters start at zero.
    pub fn new(chip: &'a mut T) -> (res: Self)
        ensures
            res.counters().insert_shape.num_calls == 0,
    {
        DBPerf { chip, perf_data: PerfCounters::default() }
    }

    /// Access the performance counters.
    pub fn perf_data(&self) -> (res: &PerfCounters)
        ensures
            *res == self.counters(),
    {
        &self.perf_data
    }
}

impl<'a, T> Decorator for DBPerf<'a, T> {
    type D = T;

    closed spec fn decorated(&self) -> T {
        *self.chip
    }

    fn base(&self) -> &T {
        &*self.chip
    }
}

impl<'a, T> MutDecorator for DBPerf<'a, T> {
    fn mut_base(&mut self) -> &mut T {
        &mut *self.chip
    }
}

} // verus!
