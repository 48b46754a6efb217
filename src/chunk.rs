use vstd::prelude::*;

use crate::range::{piece, piece_count, split_pair, RangePair};

verus! {

/// A closed interval `[start, end]` of byte offsets.
#[derive(Debug, Clone, Copy, PartialEq, Eq, Structural)]
pub struct RangePart {
    pub start: u64,
    pub end: u64,
}

impl RangePart {
    pub fn new(start: u64, end: u64) -> (r: RangePart)
        ensures
            r.start == start,
            r.end == end,
    {
        RangePart { start, end }
    }

    /// The length of the closed interval, `end - start + 1`.
    pub fn length(&self) -> (r: u64)
        requires
            self.start <= self.end,
            self.end - self.start + 1 <= u64::MAX,
        ensures
            r == self.end - self.start + 1,
    {
        self.end - self.start + 1
    }
}

/// Split `interval` into consecutive chunks of `chunk_length` bytes; the
/// last chunk may be shorter.
pub fn make_range_chunks(interval: &RangePart, chunk_length: u64) -> (r: Vec<RangePart>)
    requires
        chunk_length > 0,
    ensures
        r@.len() == piece_count(interval.start as int, interval.end as int, chunk_length as int),
        forall|i: int| 0 <= i < r@.len() ==> (#[trigger] r@[i]).start == piece(interval.start as int, interval.end as int, chunk_length as int, i).begin
            && r@[i].end == piece(interval.start as int, interval.end as int, chunk_length as int, i).end,
{
    let pairs = split_pair(&RangePair::new(interval.start, interval.end), chunk_length);
    let mut out: Vec<RangePart> = Vec::new();
    let mut i: usize = 0;
    while i < pairs.len()
        invariant
            i <= pairs@.len(),
            out@.len() == i,
            forall|j: int| 0 <= j < i ==> (#[trigger] out@[j]).start == pairs@[j].begin && out@[j].end == pairs@[j].end,
        decreases pairs@.len() - i,
    {
        out.push(RangePart::new(pairs[i].begin, pairs[i].end));
        i = i + 1;
    }
    out
}

} // verus!
