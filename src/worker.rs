use vstd::prelude::*;

use crate::error::Error;
use crate::range::RangePair;

verus! {

/// How far a worker got in fetching one chunk: the bytes received so far
/// fill `[begin, offset)` of the chunk.
pub struct RangeProgress {
    pair: RangePair,
    offset: u64,
    count: u64,
}

impl RangeProgress {
    pub closed spec fn spec_pair(&self) -> RangePair {
        self.pair
    }

    /// Bytes received so far.
    pub closed spec fn spec_count(&self) -> u64 {
        self.count
    }

    /// The offset the next byte goes to.
    pub closed spec fn spec_offset(&self) -> u64 {
        self.offset
    }

    pub closed spec fn inv(&self) -> bool {
        &&& self.offset == self.pair.begin + self.count
        &&& self.pair.begin <= self.pair.end
    }

    /// Start fetching the chunk `pair`.
    pub fn new(pair: RangePair) -> (r: RangeProgress)
        requires
            pair.begin <= pair.end,
        ensures
            r.inv(),
            r.spec_pair() == pair,
            r.spec_count() == 0,
            r.spec_offset() == pair.begin,
    {
        RangeProgress { pair, offset: pair.begin, count: 0 }
    }

    pub fn offset(&self) -> (r: u64)
        ensures
            r == self.spec_offset(),
    {
        self.offset
    }

    pub fn count(&self) -> (r: u64)
        ensures
            r == self.spec_count(),
    {
        self.count
    }

    /// `len` more bytes arrived (`len > 0`): the returned closed interval is
    /// where they go in the output.  `None` when they would run past the
    /// last offset a `u64` holds.
    pub fn on_chunk(&mut self, len: u64) -> (r: Option<RangePair>)
        requires
            old(self).inv(),
            len > 0,
        ensures
            final(self).inv(),
            final(self).spec_pair() == old(self).spec_pair(),
            r.is_some() == (old(self).spec_offset() + len <= u64::MAX),
            r.is_some() ==> r.unwrap() == (RangePair { begin: old(self).spec_offset(), end: (old(self).spec_offset() + len - 1) as u64 })
                && final(self).spec_offset() == old(self).spec_offset() + len
                && final(self).spec_count() == old(self).spec_count() + len,
            r.is_none() ==> *final(self) == *old(self),
    {
        if self.offset > u64::MAX - len {
            return None;
        }
        let pr = RangePair::new(self.offset, self.offset + (len - 1));
        self.offset = self.offset + len;
        self.count = self.count + len;
        Some(pr)
    }

    /// What is left of the chunk, to go back on the stack after a failure:
    /// `[offset, end]`, or nothing when every byte arrived.
    pub fn residual(&self) -> (r: Option<RangePair>)
        ensures
            r.is_some() == (self.spec_offset() <= self.spec_pair().end),
            r.is_some() ==> r.unwrap() == (RangePair { begin: self.spec_offset(), end: self.spec_pair().end }),
    {
        if self.offset <= self.pair.end {
            Some(RangePair::new(self.offset, self.pair.end))
        } else {
            None
        }
    }

    /// At the end of the body: the chunk is complete when exactly its length
    /// arrived; otherwise the read is uncompleted.
    pub fn finish(&self) -> (r: Result<(), Error>)
        requires
            self.inv(),
        ensures
            r.is_ok() == (self.spec_pair().begin + self.spec_count() == self.spec_pair().end + 1),
            r.is_err() ==> r == Err::<(), Error>(Error::UncompletedRead),
    {
        if self.count > 0 && self.offset - 1 == self.pair.end {
            Ok(())
        } else {
            Err(Error::UncompletedRead)
        }
    }
}

/// The idle timeout of one body read: the read is abandoned at the second
/// tick in a row with no data.
pub struct IdleTimer {
    fired: bool,
}

impl IdleTimer {
    pub closed spec fn spec_fired(&self) -> bool {
        self.fired
    }

    pub fn new() -> (r: IdleTimer)
        ensures
            !r.spec_fired(),
    {
        IdleTimer { fired: false }
    }

    /// Data arrived: the count of idle ticks starts again.
    pub fn on_data(&mut self)
        ensures
            !final(self).spec_fired(),
    {
        self.fired = false;
    }

    /// A tick passed; `true` means the read timed out.
    pub fn on_tick(&mut self) -> (r: bool)
        ensures
            r == old(self).spec_fired(),
            final(self).spec_fired(),
    {
        if self.fired {
            true
        } else {
            self.fired = true;
            false
        }
    }
}

/// What a worker does after a failed chunk or segment.
#[derive(Debug, Clone, Copy, PartialEq, Eq, Structural)]
pub enum WorkerAction {
    /// Stop the whole task: the channel to the receiver is gone.
    StopAll,
    /// Try the same segment again.
    Retry,
    /// Go on with the next item of the stack.
    Continue,
    /// Give up and report the error.
    Fail,
}

/// After a failed chunk, whose rest is already back on the stack, an HTTP
/// worker stops everything on an internal error and goes on otherwise.
pub fn range_worker_action(err: &Error) -> (r: WorkerAction)
    ensures
        (err is InnerError) ==> r == WorkerAction::StopAll,
        !(err is InnerError) ==> r == WorkerAction::Continue,
{
    match err {
        Error::InnerError(_) => WorkerAction::StopAll,
        _ => WorkerAction::Continue,
    }
}

/// After a failed segment, an HLS worker stops everything on an internal
/// error, retries the segment after a timeout, and gives up otherwise.
pub fn segment_worker_action(err: &Error) -> (r: WorkerAction)
    ensures
        (err is InnerError) ==> r == WorkerAction::StopAll,
        (err is Timeout) ==> r == WorkerAction::Retry,
        !(err is InnerError) && !(err is Timeout) ==> r == WorkerAction::Fail,
{
    match err {
        Error::InnerError(_) => WorkerAction::StopAll,
        Error::Timeout => WorkerAction::Retry,
        _ => WorkerAction::Fail,
    }
}

/// Keep the first error that a worker reported.
pub fn record_first_error(slot: &mut Option<Error>, err: Error)
    ensures
        old(slot).is_some() ==> *final(slot) == *old(slot),
        old(slot).is_none() ==> *final(slot) == Some(err),
{
    if slot.is_none() {
        *slot = Some(err);
    }
}

} // verus!
