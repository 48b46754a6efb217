use vstd::prelude::*;

use crate::ledger::{ledger_records, ledger_total, within, RangeRecorder};
use crate::error::Error;
use crate::range::{all_wf, canonical, same_cover, total_length, RangePair};

verus! {

#[verifier::external_type_specification]
#[verifier::external_body]
pub struct ExInstant(std::time::Instant);

/// The clock is read through `std::time::Instant::now`; nothing is known of
/// the instant it returns.
pub assume_specification[ std::time::Instant::now ]() -> std::time::Instant;

/// Counts bytes for the progress line: the total received, and the part of
/// it received since the tick `tick`, from which the caller derives a rate.
pub struct RateStatus {
    /// Total number
    total: u64,
    /// The number at an one tick interval
    count: u64,
    /// The start of the current tick
    tick: std::time::Instant,
}

impl RateStatus {
    pub closed spec fn spec_total(&self) -> u64 {
        self.total
    }

    pub closed spec fn spec_count(&self) -> u64 {
        self.count
    }

    pub fn new() -> (r: RateStatus)
        ensures
            r.spec_total() == 0,
            r.spec_count() == 0,
    {
        RateStatus { total: 0, count: 0, tick: std::time::Instant::now() }
    }

    pub fn total(&self) -> (r: u64)
        ensures
            r == self.spec_total(),
    {
        self.total
    }

    pub fn set_total(&mut self, total: u64)
        ensures
            final(self).spec_total() == total,
            final(self).spec_count() == old(self).spec_count(),
    {
        self.total = total;
    }

    pub fn count(&self) -> (r: u64)
        ensures
            r == self.spec_count(),
    {
        self.count
    }

    /// When the current tick started.
    pub fn tick(&self) -> std::time::Instant {
        self.tick
    }

    pub fn add(&mut self, incr: u64)
        requires
            old(self).spec_total() + incr <= u64::MAX,
            old(self).spec_count() + incr <= u64::MAX,
        ensures
            final(self).spec_total() == old(self).spec_total() + incr,
            final(self).spec_count() == old(self).spec_count() + incr,
    {
        self.total = self.total + incr;
        self.count = self.count + incr;
    }

    /// Start over: nothing received, a new tick from now.
    pub fn reset(&mut self)
        ensures
            final(self).spec_total() == 0,
            final(self).spec_count() == 0,
    {
        self.total = 0;
        self.count = 0;
        self.tick = std::time::Instant::now();
    }

    /// Start a new tick from now.
    pub fn clean(&mut self)
        ensures
            final(self).spec_total() == old(self).spec_total(),
            final(self).spec_count() == 0,
    {
        self.count = 0;
        self.tick = std::time::Instant::now();
    }
}

impl Default for RateStatus {
    fn default() -> (r: RateStatus)
        ensures
            r.spec_total() == 0,
            r.spec_count() == 0,
    {
        RateStatus::new()
    }
}

/// The progress of an HTTP task as its ledger tells it.
pub struct TaskInfo {
    path: String,
    /// The length of the file
    content_length: u64,
    /// The length stored to the file
    completed_length: u64,
    /// The stored length at an interval of one tick
    interval_length: u64,
    /// The interval of one tick
    tick_interval: std::time::Instant,
}

impl TaskInfo {
    pub closed spec fn spec_path(&self) -> Seq<char> {
        self.path@
    }

    pub closed spec fn spec_content_length(&self) -> u64 {
        self.content_length
    }

    /// The output path of the task.
    pub fn path(&self) -> (r: &String)
        ensures
            r@ == self.spec_path(),
    {
        &self.path
    }

    /// The length of the file.
    pub fn content_length(&self) -> (r: u64)
        ensures
            r == self.spec_content_length(),
    {
        self.content_length
    }

    pub closed spec fn spec_completed(&self) -> u64 {
        self.completed_length
    }

    pub closed spec fn spec_interval(&self) -> u64 {
        self.interval_length
    }

    /// The progress of the task writing to `path`, whose ledger is `ledger`.
    pub fn new(path: String, ledger: &RangeRecorder) -> (r: Result<TaskInfo, Error>)
        ensures
            r.is_ok() ==> r.unwrap().spec_content_length() == ledger_total(ledger@) && r.unwrap().spec_path() == path@
                && r.unwrap().spec_interval() == 0 && exists|v: Seq<RangePair>|
                canonical(v) && same_cover(v, ledger_records(ledger@)) && r.unwrap().spec_completed() == total_length(v),
            !all_wf(ledger_records(ledger@)) ==> r.is_err(),
            all_wf(ledger_records(ledger@)) && within(ledger_records(ledger@), ledger_total(ledger@)) ==> r.is_ok(),
    {
        let content_length = ledger.total();
        let completed_length = ledger.count()?;
        Ok(TaskInfo {
            path,
            content_length,
            completed_length,
            interval_length: 0,
            tick_interval: std::time::Instant::now(),
        })
    }

    pub fn completed_length(&self) -> (r: u64)
        ensures
            r == self.spec_completed(),
    {
        self.completed_length
    }

    /// Bytes still to fetch; nothing when more was recorded than the length.
    pub fn remains(&self) -> (r: u64)
        ensures
            r == (if self.spec_content_length() >= self.spec_completed() { self.spec_content_length() - self.spec_completed() } else { 0 }),
    {
        if self.content_length >= self.completed_length {
            self.content_length - self.completed_length
        } else {
            0
        }
    }

    /// The bytes received in the current tick so far.
    pub fn interval_length(&self) -> (r: u64)
        ensures
            r == self.spec_interval(),
    {
        self.interval_length
    }

    /// When the current tick started.
    pub fn tick_interval(&self) -> std::time::Instant {
        self.tick_interval
    }

    pub fn add_completed(&mut self, interval_length: u64)
        requires
            old(self).spec_completed() + interval_length <= u64::MAX,
            old(self).spec_interval() + interval_length <= u64::MAX,
        ensures
            final(self).spec_completed() == old(self).spec_completed() + interval_length,
            final(self).spec_interval() == old(self).spec_interval() + interval_length,
            final(self).spec_content_length() == old(self).spec_content_length(),
    {
        self.completed_length = self.completed_length + interval_length;
        self.interval_length = self.interval_length + interval_length;
    }

    pub fn clean_interval(&mut self)
        ensures
            final(self).spec_interval() == 0,
            final(self).spec_completed() == old(self).spec_completed(),
            final(self).spec_content_length() == old(self).spec_content_length(),
    {
        self.interval_length = 0;
        self.tick_interval = std::time::Instant::now();
    }
}

} // verus!
