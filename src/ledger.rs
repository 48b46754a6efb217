use vstd::prelude::*;
use vstd::string::*;

use crate::bytes::{be_bytes, be_round_trip, be_u64, u64_to_u8x8, u8x8_to_u64};
use crate::error::Error;
use crate::range::{
    all_wf, canonical, covers, lemma_canonical_pairwise, lemma_cover_concat, lemma_cover_insert,
    lemma_cover_push, same_cover, sorted_by_begin, total_length, RangePair,
};

verus! {

/// The first eight bytes of `b`, with zeros in place of bytes past its end.
pub open spec fn head8(b: Seq<u8>) -> Seq<u8> {
    Seq::new(8, |i: int| if i < b.len() { b[i] } else { 0u8 })
}

/// The total content length stored in the ledger `b`.
pub open spec fn ledger_total(b: Seq<u8>) -> u64 {
    be_u64(head8(b))
}

/// How many complete 16-byte records follow the 8-byte header.
pub open spec fn record_count(b: Seq<u8>) -> int {
    if b.len() >= 8 { (b.len() - 8) / 16 } else { 0 }
}

pub open spec fn record_at(b: Seq<u8>, i: int) -> RangePair {
    RangePair {
        begin: be_u64(b.subrange(8 + 16 * i, 16 + 16 * i)),
        end: be_u64(b.subrange(16 + 16 * i, 24 + 16 * i)),
    }
}

/// The records of the ledger `b`, in the order they were appended.
pub open spec fn ledger_records(b: Seq<u8>) -> Seq<RangePair> {
    Seq::new(record_count(b) as nat, |i: int| record_at(b, i))
}

/// The 16 bytes of one record: `begin` then `end`, both big-endian.
pub open spec fn record_bytes(p: RangePair) -> Seq<u8> {
    be_bytes(p.begin) + be_bytes(p.end)
}

/// The records of `s` one after the other.
pub open spec fn records_bytes(s: Seq<RangePair>) -> Seq<u8>
    decreases s.len(),
{
    if s.len() == 0 {
        Seq::empty()
    } else {
        records_bytes(s.drop_last()) + record_bytes(s.last())
    }
}

/// A ledger with header `total` followed by the records of `s`.
pub open spec fn ledger_bytes(total: u64, s: Seq<RangePair>) -> Seq<u8> {
    be_bytes(total) + records_bytes(s)
}

/// A ledger image made of a header and whole records only.
pub open spec fn aligned(b: Seq<u8>) -> bool {
    b.len() >= 8 && (b.len() - 8) % 16 == 0
}

/// Appending one record to an aligned ledger adds it at the end of the
/// record list and leaves the total alone.
pub proof fn lemma_append_record(b: Seq<u8>, p: RangePair)
    requires
        aligned(b),
    ensures
        aligned(b + record_bytes(p)),
        ledger_records(b + record_bytes(p)) == ledger_records(b).push(p),
        ledger_total(b + record_bytes(p)) == ledger_total(b),
{
    let c = b + record_bytes(p);
    be_round_trip(p.begin);
    be_round_trip(p.end);
    let n = record_count(b);
    assert(record_count(c) == n + 1) by {
        assert((b.len() + 16 - 8) / 16 == (b.len() - 8) / 16 + 1);
    }
    assert forall|i: int| 0 <= i < n implies record_at(c, i) == record_at(b, i) by {
        assert(c.subrange(8 + 16 * i, 16 + 16 * i) =~= b.subrange(8 + 16 * i, 16 + 16 * i));
        assert(c.subrange(16 + 16 * i, 24 + 16 * i) =~= b.subrange(16 + 16 * i, 24 + 16 * i));
    }
    assert(b.len() == 8 + 16 * n);
    assert(c.subrange(8 + 16 * n, 16 + 16 * n) =~= be_bytes(p.begin));
    assert(c.subrange(16 + 16 * n, 24 + 16 * n) =~= be_bytes(p.end));
    assert(ledger_records(c) =~= ledger_records(b).push(p));
    assert(head8(c) =~= head8(b));
}

/// A ledger written as a header and a list of records reads back as that
/// header and that list.
pub proof fn lemma_ledger_bytes(total: u64, s: Seq<RangePair>)
    ensures
        aligned(ledger_bytes(total, s)),
        ledger_total(ledger_bytes(total, s)) == total,
        ledger_records(ledger_bytes(total, s)) == s,
    decreases s.len(),
{
    be_round_trip(total);
    if s.len() == 0 {
        assert(ledger_bytes(total, s) =~= be_bytes(total));
        assert(head8(be_bytes(total)) =~= be_bytes(total));
        assert(ledger_records(ledger_bytes(total, s)) =~= s);
    } else {
        lemma_ledger_bytes(total, s.drop_last());
        assert(ledger_bytes(total, s) =~= ledger_bytes(total, s.drop_last()) + record_bytes(s.last()));
        lemma_append_record(ledger_bytes(total, s.drop_last()), s.last());
        assert(s.drop_last().push(s.last()) =~= s);
    }
}

/// The gap strictly between `a` and `b`, if there is one.
pub open spec fn gap_between(a: RangePair, b: RangePair) -> Seq<RangePair> {
    if a.end + 1 < b.begin {
        seq![RangePair { begin: (a.end + 1) as u64, end: (b.begin - 1) as u64 }]
    } else {
        seq![]
    }
}

/// The gaps between consecutive intervals among the first `n` of `q`.
pub open spec fn inner_gaps(q: Seq<RangePair>, n: int) -> Seq<RangePair>
    decreases n,
{
    if n <= 1 {
        seq![]
    } else {
        inner_gaps(q, n - 1) + gap_between(q[n - 2], q[n - 1])
    }
}

/// `v` followed by the one-byte sentinel `[total, total]`.
pub open spec fn with_sentinel(v: Seq<RangePair>, total: u64) -> Seq<RangePair> {
    v.push(RangePair { begin: total, end: total })
}

/// The missing intervals of `[0, total)` next to the sorted pairs `v`: the
/// part before the first pair, then the holes between consecutive pairs,
/// the sentinel `[total, total]` closing the list.
pub open spec fn gap_list(v: Seq<RangePair>, total: u64) -> Seq<RangePair> {
    let q = with_sentinel(v, total);
    (if q[0].begin > 0 {
        seq![RangePair { begin: 0, end: (q[0].begin - 1) as u64 }]
    } else {
        seq![]
    }) + inner_gaps(q, q.len() as int)
}

/// Every interval of `v` lies inside `[0, total)`.
pub open spec fn within(v: Seq<RangePair>, total: u64) -> bool {
    forall|i: int| 0 <= i < v.len() ==> (#[trigger] v[i]).end < total
}

/// Intervals that strictly increase: each ends before any later one begins.
pub open spec fn increasing(q: Seq<RangePair>) -> bool {
    &&& all_wf(q)
    &&& forall|i: int, j: int| 0 <= i < j < q.len() ==> (#[trigger] q[i]).end < (#[trigger] q[j]).begin
}

proof fn lemma_inner_gaps(q: Seq<RangePair>, n: int)
    requires
        increasing(q),
        1 <= n <= q.len(),
    ensures
        canonical(inner_gaps(q, n)),
        forall|k: int| 0 <= k < inner_gaps(q, n).len() ==> (#[trigger] inner_gaps(q, n)[k]).end < q[n - 1].begin,
        forall|x: int| #[trigger] covers(inner_gaps(q, n), x) == (q[0].begin <= x <= q[n - 1].end && !covers(q.take(n), x)),
    decreases n,
{
    let g = inner_gaps(q, n);
    if n == 1 {
        assert forall|x: int| #[trigger] covers(g, x) == (q[0].begin <= x <= q[0].end && !covers(q.take(1), x)) by {
            if q[0].begin <= x <= q[0].end {
                assert(q.take(1)[0] == q[0]);
            }
        }
    } else {
        lemma_inner_gaps(q, n - 1);
        let h = inner_gaps(q, n - 1);
        let e = gap_between(q[n - 2], q[n - 1]);
        assert(g == h + e);
        assert(q.take(n) =~= q.take(n - 1).push(q[n - 1]));
        assert forall|x: int| #[trigger] covers(g, x) == (q[0].begin <= x <= q[n - 1].end && !covers(q.take(n), x)) by {
            lemma_cover_concat(h, e, x);
            lemma_cover_push(q.take(n - 1), q[n - 1], x);
            if covers(e, x) {
                assert(e[0].begin <= x <= e[0].end);
                if covers(q.take(n - 1), x) {
                    let i = choose|i: int| 0 <= i < q.take(n - 1).len() && (#[trigger] q.take(n - 1)[i]).begin <= x <= q.take(n - 1)[i].end;
                    if i < n - 2 {
                        assert(q[i].end < q[n - 2].begin);
                    }
                }
                if n - 2 > 0 {
                    assert(q[0].end < q[n - 2].begin);
                }
            }
            if q[0].begin <= x <= q[n - 1].end && !covers(q.take(n), x) {
                if x > q[n - 2].end {
                    assert(x < q[n - 1].begin);
                    assert(covers(e, x)) by {
                        assert(e[0].begin <= x <= e[0].end);
                    }
                }
            }
        }
        assert forall|k: int| 0 <= k < g.len() implies (#[trigger] g[k]).end < q[n - 1].begin by {
            if k < h.len() {
                assert(g[k] == h[k]);
                assert(q[n - 2].begin <= q[n - 2].end);
            }
        }
        assert(canonical(g)) by {
            assert forall|k: int| 0 <= k < g.len() implies (#[trigger] g[k]).begin <= g[k].end by {
                if k < h.len() {
                    assert(g[k] == h[k]);
                }
            }
            assert forall|k: int| 0 <= k < g.len() - 1 implies (#[trigger] g[k]).end + 1 < g[k + 1].begin by {
                if k + 1 < h.len() {
                    assert(g[k] == h[k] && g[k + 1] == h[k + 1]);
                } else {
                    assert(g[k] == h[k]);
                    assert(h[k].end < q[n - 2].begin);
                    assert(q[n - 2].begin <= q[n - 2].end);
                }
            }
        }
    }
}

proof fn lemma_sentinel(v: Seq<RangePair>, total: u64)
    requires
        canonical(v),
        within(v, total),
    ensures
        increasing(with_sentinel(v, total)),
        with_sentinel(v, total)[0].begin <= total,
        forall|x: int| #[trigger] covers(with_sentinel(v, total), x) == (covers(v, x) || x == total),
        forall|x: int| 0 <= x < with_sentinel(v, total)[0].begin ==> !#[trigger] covers(v, x),
{
    let q = with_sentinel(v, total);
    assert forall|i: int, j: int| 0 <= i < j < q.len() implies (#[trigger] q[i]).end < (#[trigger] q[j]).begin by {
        if j < v.len() {
            lemma_canonical_pairwise(v, i, j);
        } else {
            assert(v[i].end < total);
        }
    }
    assert forall|x: int| #[trigger] covers(q, x) == (covers(v, x) || x == total) by {
        lemma_cover_push(v, RangePair { begin: total, end: total }, x);
    }
    assert forall|x: int| 0 <= x < q[0].begin implies !#[trigger] covers(v, x) by {
        if covers(v, x) {
            let i = choose|i: int| 0 <= i < v.len() && (#[trigger] v[i]).begin <= x <= v[i].end;
            if i > 0 {
                assert(q[0].end < q[i].begin);
            }
        }
    }
    if v.len() > 0 {
        assert(v[0].end < total);
    }
}

proof fn lemma_gap_cover(v: Seq<RangePair>, total: u64)
    requires
        canonical(v),
        within(v, total),
    ensures
        canonical(inner_gaps(with_sentinel(v, total), v.len() + 1 as int)),
        forall|x: int| #[trigger] covers(gap_list(v, total), x) == (0 <= x < total && !covers(v, x)),
{
    let q = with_sentinel(v, total);
    let n = q.len() as int;
    lemma_sentinel(v, total);
    lemma_inner_gaps(q, n);
    let h = if q[0].begin > 0 {
        seq![RangePair { begin: 0, end: (q[0].begin - 1) as u64 }]
    } else {
        seq![]
    };
    let g = inner_gaps(q, n);
    assert(gap_list(v, total) == h + g);
    assert(q.take(n) =~= q);
    assert(q[n - 1].end == total);
    assert forall|x: int| #[trigger] covers(gap_list(v, total), x) == (0 <= x < total && !covers(v, x)) by {
        lemma_cover_concat(h, g, x);
        assert(covers(g, x) == (q[0].begin <= x <= total && !covers(q, x)));
        assert(covers(q, x) == (covers(v, x) || x == total));
        if 0 <= x < q[0].begin {
            assert(!covers(v, x));
            assert(covers(h, x)) by {
                assert(h[0].begin <= x <= h[0].end);
            }
        }
        if covers(h, x) {
            assert(h[0].begin <= x <= h[0].end) by {
                let i = choose|i: int| 0 <= i < h.len() && (#[trigger] h[i]).begin <= x <= h[i].end;
            }
        }
    }
}

/// The gaps of a canonical list of ranges that all lie inside `[0, total)`
/// are canonical too; pairs and gaps together cover exactly `[0, total - 1]`,
/// and no byte is both in a pair and in a gap.
pub proof fn gaps_cover_the_rest(v: Seq<RangePair>, total: u64)
    requires
        canonical(v),
        within(v, total),
    ensures
        canonical(gap_list(v, total)),
        forall|x: int| (covers(v, x) || #[trigger] covers(gap_list(v, total), x)) <==> 0 <= x < total,
        forall|x: int| !(covers(v, x) && #[trigger] covers(gap_list(v, total), x)),
{
    lemma_gap_cover(v, total);
    lemma_gap_canonical(v, total);
    let all = gap_list(v, total);
    assert forall|x: int| (covers(v, x) || #[trigger] covers(all, x)) <==> 0 <= x < total by {
        if covers(v, x) {
            let i = choose|i: int| 0 <= i < v.len() && (#[trigger] v[i]).begin <= x <= v[i].end;
        }
    }
}

proof fn lemma_prepend_canonical(h: RangePair, g: Seq<RangePair>)
    requires
        h.begin <= h.end,
        canonical(g),
        g.len() > 0 ==> h.end + 1 < g[0].begin,
    ensures
        canonical(seq![h] + g),
{
    let all = seq![h] + g;
    assert forall|k: int| 0 <= k < all.len() implies (#[trigger] all[k]).begin <= all[k].end by {
        if k > 0 {
            assert(all[k] == g[k - 1]);
        }
    }
    assert forall|k: int| 0 <= k < all.len() - 1 implies (#[trigger] all[k]).end + 1 < all[k + 1].begin by {
        if k > 0 {
            assert(all[k] == g[k - 1] && all[k + 1] == g[k]);
        }
    }
}

proof fn lemma_gap_canonical(v: Seq<RangePair>, total: u64)
    requires
        canonical(v),
        within(v, total),
    ensures
        canonical(gap_list(v, total)),
{
    let q = with_sentinel(v, total);
    let n = q.len() as int;
    lemma_sentinel(v, total);
    lemma_inner_gaps(q, n);
    let g = inner_gaps(q, n);
    if q[0].begin > 0 {
        let h = RangePair { begin: 0, end: (q[0].begin - 1) as u64 };
        assert(gap_list(v, total) == seq![h] + g);
        if g.len() > 0 {
            let b = g[0].begin as int;
            assert(q.take(n) =~= q);
            assert(covers(g, b)) by {
                assert(g[0].begin <= g[0].end);
            }
            if b <= q[0].end {
                assert(covers(q, b)) by {
                    assert(q[0].begin <= b <= q[0].end);
                }
            }
        }
        lemma_prepend_canonical(h, g);
    } else {
        assert(gap_list(v, total) =~= g);
    }
}

/// The missing intervals of `[0, total)` next to the sorted pairs `pairs`.
pub fn gaps_of(pairs: &Vec<RangePair>, total: u64) -> (r: Vec<RangePair>)
    ensures
        r@ == gap_list(pairs@, total),
        canonical(pairs@) && within(pairs@, total) ==> canonical(r@) && forall|x: int| #[trigger] covers(r@, x) == (0 <= x < total && !covers(pairs@, x)),
{
    let mut q: Vec<RangePair> = Vec::new();
    let mut i: usize = 0;
    while i < pairs.len()
        invariant
            i <= pairs@.len(),
            q@ =~= pairs@.take(i as int),
        decreases pairs@.len() - i,
    {
        q.push(pairs[i]);
        i = i + 1;
    }
    q.push(RangePair::new(total, total));
    proof {
        assert(q@ =~= with_sentinel(pairs@, total));
    }
    let mut g: Vec<RangePair> = Vec::new();
    if q[0].begin > 0 {
        g.push(RangePair::new(0, q[0].begin - 1));
    }
    let ghost head = g@;
    let n = q.len();
    let mut k: usize = 1;
    assert(g@ =~= head + inner_gaps(q@, 1));
    while k < n
        invariant
            1 <= k <= n,
            n == q@.len(),
            q@ == with_sentinel(pairs@, total),
            g@ =~= head + inner_gaps(q@, k as int),
        decreases n - k,
    {
        let a = q[k - 1];
        let b = q[k];
        if a.end < b.begin && b.begin - a.end > 1 {
            g.push(RangePair::new(a.end + 1, b.begin - 1));
        }
        k = k + 1;
    }
    proof {
        if canonical(pairs@) && within(pairs@, total) {
            gaps_cover_the_rest(pairs@, total);
            assert forall|x: int| #[trigger] covers(g@, x) == (0 <= x < total && !covers(pairs@, x)) by {
                if covers(g@, x) {
                    assert(!(covers(pairs@, x) && covers(g@, x)));
                }
            }
        }
    }
    g
}

/// Intervals that cover the same bytes as intervals inside `[0, total)`
/// lie inside `[0, total)` too.
proof fn lemma_within_same_cover(a: Seq<RangePair>, b: Seq<RangePair>, total: u64)
    requires
        within(a, total),
        all_wf(b),
        same_cover(a, b),
    ensures
        within(b, total),
{
    assert forall|i: int| 0 <= i < b.len() implies (#[trigger] b[i]).end < total by {
        assert(covers(b, b[i].end as int));
        assert(covers(a, b[i].end as int));
        let j = choose|j: int| 0 <= j < a.len() && (#[trigger] a[j]).begin <= b[i].end <= a[j].end;
    }
}

/// The bytes of a canonical list are at most one past its last end.
proof fn lemma_total_length_bound(v: Seq<RangePair>)
    requires
        canonical(v),
        v.len() > 0,
    ensures
        total_length(v) <= v.last().end + 1,
    decreases v.len(),
{
    let d = v.drop_last();
    if d.len() > 0 {
        assert(canonical(d)) by {
            assert forall|i: int| 0 <= i < d.len() - 1 implies (#[trigger] d[i]).end + 1 < d[i + 1].begin by {
                assert(d[i] == v[i] && d[i + 1] == v[i + 1]);
            }
        }
        lemma_total_length_bound(d);
        assert(d.last() == v[v.len() - 2]);
    } else {
        assert(total_length(d) == 0);
    }
}

/// The sum of the lengths of `v`, or `None` when it does not fit in a `u64`.
pub fn sum_lengths(v: &Vec<RangePair>) -> (r: Option<u64>)
    requires
        all_wf(v@),
    ensures
        r.is_some() == (total_length(v@) <= u64::MAX),
        r.is_some() ==> r.unwrap() == total_length(v@),
{
    let mut sum: u64 = 0;
    let mut i: usize = 0;
    while i < v.len()
        invariant
            i <= v@.len(),
            all_wf(v@),
            sum == total_length(v@.take(i as int)),
        decreases v@.len() - i,
    {
        let p = v[i];
        proof {
            assert(v@.take(i + 1).drop_last() =~= v@.take(i as int));
            assert(p.begin <= p.end);
        }
        if p.begin == 0 && p.end == u64::MAX {
            proof {
                lemma_total_length_grows(v@, i as int + 1);
            }
            return None;
        }
        let len = p.end - p.begin + 1;
        if sum > u64::MAX - len {
            proof {
                lemma_total_length_grows(v@, i as int + 1);
            }
            return None;
        }
        sum = sum + len;
        i = i + 1;
    }
    proof {
        assert(v@.take(v@.len() as int) =~= v@);
    }
    Some(sum)
}

/// The length sum of a prefix of well-formed intervals never exceeds the whole.
proof fn lemma_total_length_grows(v: Seq<RangePair>, n: int)
    requires
        all_wf(v),
        0 <= n <= v.len(),
    ensures
        total_length(v.take(n)) <= total_length(v),
    decreases v.len() - n,
{
    if n < v.len() {
        lemma_total_length_grows(v, n + 1);
        assert(v.take(n + 1).drop_last() =~= v.take(n));
    } else {
        assert(v.take(n) =~= v);
    }
}

/// Writing the records of `s` one after the other after a header.
proof fn lemma_records_bytes_step(s: Seq<RangePair>, i: int)
    requires
        0 <= i < s.len(),
    ensures
        records_bytes(s.take(i + 1)) == records_bytes(s.take(i)) + record_bytes(s[i]),
{
    assert(s.take(i + 1).drop_last() =~= s.take(i));
}

/// A ledger that starts aligned and then gets the records of `ps`
/// appended, in any number of appends, holds its old records followed by
/// `ps`, keeps its total, and so covers exactly the bytes it covered before
/// and the bytes of the appended ranges.  With the canonical form that
/// `RangeRecorder::pairs` returns, this is the whole law of the ledger.
pub proof fn appends_accumulate(b: Seq<u8>, ps: Seq<RangePair>)
    requires
        aligned(b),
    ensures
        aligned(b + records_bytes(ps)),
        ledger_records(b + records_bytes(ps)) == ledger_records(b) + ps,
        ledger_total(b + records_bytes(ps)) == ledger_total(b),
        forall|x: int| #[trigger] covers(ledger_records(b + records_bytes(ps)), x) == (covers(ledger_records(b), x) || covers(ps, x)),
    decreases ps.len(),
{
    if ps.len() == 0 {
        assert(b + records_bytes(ps) =~= b);
        assert(ledger_records(b) + ps =~= ledger_records(b));
    } else {
        let d = ps.drop_last();
        appends_accumulate(b, d);
        let c = b + records_bytes(d);
        lemma_append_record(c, ps.last());
        assert(b + records_bytes(ps) =~= c + record_bytes(ps.last()));
        assert(ledger_records(b) + ps =~= (ledger_records(b) + d).push(ps.last()));
    }
    assert forall|x: int| #[trigger] covers(ledger_records(b + records_bytes(ps)), x) == (covers(ledger_records(b), x) || covers(ps, x)) by {
        lemma_cover_concat(ledger_records(b), ps, x);
    }
}

/// The range ledger of one output file, held as the bytes of the file:
/// the total content length as a big-endian `u64`, then one 16-byte record
/// `begin ‖ end` per completed range, in the order the ranges completed.
///
/// The caller reads the file into `new`, and writes back what the
/// mutating methods say they change.
pub struct RangeRecorder {
    inner: Vec<u8>,
}

impl RangeRecorder {
    pub closed spec fn view(&self) -> Seq<u8> {
        self.inner@
    }

    /// A ledger whose file holds `bytes` (empty for a file just created).
    pub fn new(bytes: Vec<u8>) -> (r: RangeRecorder)
        ensures
            r@ == bytes@,
    {
        RangeRecorder { inner: bytes }
    }

    /// The bytes of the ledger file.
    pub fn as_bytes(&self) -> (r: &Vec<u8>)
        ensures
            r@ == self@,
    {
        &self.inner
    }

    fn byte_or_zero(&self, i: usize) -> (r: u8)
        ensures
            r == (if i < self@.len() { self@[i as int] } else { 0u8 }),
    {
        if i < self.inner.len() {
            self.inner[i]
        } else {
            0
        }
    }

    fn u64_at(&self, pos: usize) -> (r: u64)
        requires
            pos + 8 <= self@.len(),
        ensures
            r == be_u64(self@.subrange(pos as int, pos + 8)),
    {
        let b = &self.inner;
        let len = b.len();
        assert(pos + 8 <= len);
        let a = [b[pos], b[pos + 1], b[pos + 2], b[pos + 3], b[pos + 4], b[pos + 5], b[pos + 6], b[pos + 7]];
        proof {
            assert(a@ =~= self@.subrange(pos as int, pos + 8));
        }
        u8x8_to_u64(&a)
    }

    /// The total content length stored in the ledger; a file shorter than
    /// eight bytes reads as if padded with zeros.
    pub fn total(&self) -> (r: u64)
        ensures
            r == ledger_total(self@),
    {
        let a = [
            self.byte_or_zero(0),
            self.byte_or_zero(1),
            self.byte_or_zero(2),
            self.byte_or_zero(3),
            self.byte_or_zero(4),
            self.byte_or_zero(5),
            self.byte_or_zero(6),
            self.byte_or_zero(7),
        ];
        proof {
            assert(a@ =~= head8(self@));
        }
        u8x8_to_u64(&a)
    }

    /// The complete records of the ledger, in file order.
    pub fn records(&self) -> (r: Vec<RangePair>)
        ensures
            r@ == ledger_records(self@),
    {
        let mut out: Vec<RangePair> = Vec::new();
        let len = self.inner.len();
        if len < 8 {
            proof {
                assert(out@ =~= ledger_records(self@));
            }
            return out;
        }
        let n = (len - 8) / 16;
        let mut i: usize = 0;
        while i < n
            invariant
                len == self@.len(),
                len >= 8,
                n == record_count(self@),
                i <= n,
                out@ =~= ledger_records(self@).take(i as int),
            decreases n - i,
        {
            let begin = self.u64_at(8 + 16 * i);
            let end = self.u64_at(16 + 16 * i);
            out.push(RangePair::new(begin, end));
            i = i + 1;
        }
        out
    }

    /// The recorded ranges in canonical form: sorted, merged where they
    /// overlap or touch, covering exactly the bytes of all records.  A
    /// record with `begin > end` is a bug of whoever wrote the ledger.
    pub fn pairs(&self) -> (r: Result<Vec<RangePair>, Error>)
        ensures
            r.is_ok() == all_wf(ledger_records(self@)),
            r.is_ok() ==> canonical(r.unwrap()@) && same_cover(r.unwrap()@, ledger_records(self@)),
    {
        let recs = self.records();
        if !check_wf(&recs) {
            return Err(Error::Bug(String::from_str("a ledger record has begin > end")));
        }
        Ok(canonical_pairs(&recs))
    }

    /// The missing intervals of `[0, total)`.  When every record lies inside
    /// `[0, total)`, the gaps are canonical and cover exactly the bytes of
    /// `[0, total)` that no record covers.
    pub fn gaps(&self) -> (r: Result<Vec<RangePair>, Error>)
        ensures
            r.is_ok() == all_wf(ledger_records(self@)),
            r.is_ok() ==> exists|v: Seq<RangePair>|
                canonical(v) && same_cover(v, ledger_records(self@)) && r.unwrap()@ == gap_list(v, ledger_total(self@)),
            r.is_ok() && within(ledger_records(self@), ledger_total(self@)) ==> canonical(r.unwrap()@)
                && forall|x: int| #[trigger] covers(r.unwrap()@, x) == (0 <= x < ledger_total(self@) && !covers(ledger_records(self@), x)),
    {
        let pairs = self.pairs()?;
        let total = self.total();
        let g = gaps_of(&pairs, total);
        proof {
            let recs = ledger_records(self@);
            if within(recs, total) {
                lemma_within_same_cover(recs, pairs@, total);
                assert forall|x: int| #[trigger] covers(g@, x) == (0 <= x < total && !covers(recs, x)) by {
                    assert(covers(pairs@, x) == covers(recs, x));
                }
            }
        }
        Ok(g)
    }

    /// How many bytes the records cover.  It is owed whenever the records are
    /// well formed and lie inside `[0, total)`.
    pub fn count(&self) -> (r: Result<u64, Error>)
        ensures
            r.is_ok() ==> all_wf(ledger_records(self@)) && exists|v: Seq<RangePair>|
                canonical(v) && same_cover(v, ledger_records(self@)) && r.unwrap() == total_length(v),
            !all_wf(ledger_records(self@)) ==> r.is_err(),
            all_wf(ledger_records(self@)) && within(ledger_records(self@), ledger_total(self@)) ==> r.is_ok(),
    {
        let pairs = self.pairs()?;
        proof {
            let recs = ledger_records(self@);
            let total = ledger_total(self@);
            if within(recs, total) && pairs@.len() > 0 {
                lemma_within_same_cover(recs, pairs@, total);
                lemma_total_length_bound(pairs@);
                assert(pairs@.last().end < total);
            }
        }
        match sum_lengths(&pairs) {
            Some(c) => Ok(c),
            None => Err(Error::Bug(String::from_str("the ledger covers more bytes than a u64 counts"))),
        }
    }

    /// Compact the ledger to its canonical form: the same total, then the
    /// canonical pairs.  The caller truncates the file and writes
    /// `as_bytes()` at offset 0.  Nothing changes when a record is broken.
    pub fn rewrite(&mut self) -> (r: Result<(), Error>)
        ensures
            r.is_ok() == all_wf(ledger_records(old(self)@)),
            r.is_err() ==> final(self)@ == old(self)@,
            r.is_ok() ==> aligned(final(self)@) && ledger_total(final(self)@) == ledger_total(old(self)@)
                && canonical(ledger_records(final(self)@))
                && same_cover(ledger_records(final(self)@), ledger_records(old(self)@))
                && final(self)@ == ledger_bytes(ledger_total(old(self)@), ledger_records(final(self)@)),
    {
        let total = self.total();
        let pairs = self.pairs()?;
        let head = u64_to_u8x8(total);
        let mut out: Vec<u8> = Vec::new();
        let mut i: usize = 0;
        while i < 8
            invariant
                i <= 8,
                out@ =~= head@.take(i as int),
            decreases 8 - i,
        {
            out.push(head[i]);
            i = i + 1;
        }
        proof {
            assert(records_bytes(pairs@.take(0)) =~= Seq::<u8>::empty());
            assert(out@ =~= ledger_bytes(total, pairs@.take(0)));
        }
        let mut k: usize = 0;
        while k < pairs.len()
            invariant
                k <= pairs@.len(),
                out@ =~= ledger_bytes(total, pairs@.take(k as int)),
            decreases pairs@.len() - k,
        {
            let rec = encode_pair(pairs[k]);
            let mut j: usize = 0;
            let ghost start = out@;
            while j < 16
                invariant
                    j <= 16,
                    rec@ == record_bytes(pairs@[k as int]),
                    out@ =~= start + rec@.take(j as int),
                decreases 16 - j,
            {
                out.push(rec[j]);
                j = j + 1;
            }
            proof {
                assert(rec@.take(16) =~= rec@);
                lemma_records_bytes_step(pairs@, k as int);
            }
            k = k + 1;
        }
        proof {
            assert(pairs@.take(pairs@.len() as int) =~= pairs@);
            lemma_ledger_bytes(total, pairs@);
        }
        self.inner = out;
        Ok(())
    }

    /// Store `total` in the header; the caller writes the eight bytes of
    /// `u64_to_u8x8(total)` at offset 0 of the file.
    pub fn write_total(&mut self, total: u64)
        ensures
            final(self)@ == be_bytes(total) + (if old(self)@.len() > 8 {
                old(self)@.subrange(8, old(self)@.len() as int)
            } else {
                Seq::empty()
            }),
            ledger_total(final(self)@) == total,
            old(self)@.len() >= 8 ==> ledger_records(final(self)@) == ledger_records(old(self)@),
    {
        let head = u64_to_u8x8(total);
        let mut out: Vec<u8> = Vec::new();
        let mut i: usize = 0;
        while i < 8
            invariant
                i <= 8,
                out@ =~= head@.take(i as int),
            decreases 8 - i,
        {
            out.push(head[i]);
            i = i + 1;
        }
        let len = self.inner.len();
        let mut j: usize = 8;
        assert(out@ =~= head@);
        if len > 8 {
            assert(out@ =~= head@ + old(self)@.subrange(8, 8));
            while j < len
                invariant
                    8 <= j <= len,
                    len == old(self)@.len(),
                    self@ == old(self)@,
                    out@ =~= head@ + old(self)@.subrange(8, j as int),
                decreases len - j,
            {
                out.push(self.inner[j]);
                j = j + 1;
                proof {
                    assert(out@ =~= head@ + old(self)@.subrange(8, j as int));
                }
            }
        }
        proof {
            let fin = out@;
            be_round_trip(total);
            assert(head@ == be_bytes(total));
            assert(head8(fin) =~= be_bytes(total));
            if old(self)@.len() > 8 {
                assert(fin =~= be_bytes(total) + old(self)@.subrange(8, old(self)@.len() as int));
            } else {
                assert(fin =~= be_bytes(total) + Seq::empty());
            }
            if old(self)@.len() >= 8 {
                let o = old(self)@;
                assert(record_count(fin) == record_count(o));
                assert forall|i: int| 0 <= i < record_count(o) implies record_at(fin, i) == record_at(o, i) by {
                    assert(fin.subrange(8 + 16 * i, 16 + 16 * i) =~= o.subrange(8 + 16 * i, 16 + 16 * i));
                    assert(fin.subrange(16 + 16 * i, 24 + 16 * i) =~= o.subrange(16 + 16 * i, 24 + 16 * i));
                }
                assert(ledger_records(fin) =~= ledger_records(o));
            }
        }
        self.inner = out;
    }

    /// Append the record of `pair`; the caller appends the returned 16 bytes
    /// at the end of the file.
    pub fn write_pair(&mut self, pair: RangePair) -> (r: Vec<u8>)
        ensures
            r@ == record_bytes(pair),
            final(self)@ == old(self)@ + record_bytes(pair),
            aligned(old(self)@) ==> ledger_records(final(self)@) == ledger_records(old(self)@).push(pair),
            aligned(old(self)@) ==> ledger_total(final(self)@) == ledger_total(old(self)@),
    {
        let r = encode_pair(pair);
        let mut i: usize = 0;
        let ghost start = self@;
        while i < 16
            invariant
                i <= 16,
                r@ == record_bytes(pair),
                self@ =~= start + r@.take(i as int),
            decreases 16 - i,
        {
            self.inner.push(r[i]);
            i = i + 1;
        }
        proof {
            assert(r@.take(16) =~= r@);
            if aligned(start) {
                lemma_append_record(start, pair);
            }
        }
        r
    }
}

/// Whether every interval of `v` is well formed.
fn check_wf(v: &Vec<RangePair>) -> (r: bool)
    ensures
        r == all_wf(v@),
{
    let mut i: usize = 0;
    while i < v.len()
        invariant
            i <= v@.len(),
            forall|k: int| 0 <= k < i ==> (#[trigger] v@[k]).begin <= v@[k].end,
        decreases v@.len() - i,
    {
        if v[i].begin > v[i].end {
            return false;
        }
        i = i + 1;
    }
    true
}

/// The intervals of `v` sorted by `begin`.
fn sort_by_begin(v: &Vec<RangePair>) -> (r: Vec<RangePair>)
    requires
        all_wf(v@),
    ensures
        all_wf(r@),
        sorted_by_begin(r@),
        same_cover(r@, v@),
{
    let mut out: Vec<RangePair> = Vec::new();
    let mut i: usize = 0;
    while i < v.len()
        invariant
            i <= v@.len(),
            all_wf(v@),
            all_wf(out@),
            sorted_by_begin(out@),
            same_cover(out@, v@.take(i as int)),
        decreases v@.len() - i,
    {
        let p = v[i];
        let mut j: usize = 0;
        while j < out.len() && out[j].begin <= p.begin
            invariant
                j <= out@.len(),
                forall|k: int| 0 <= k < j ==> (#[trigger] out@[k]).begin <= p.begin,
            decreases out@.len() - j,
        {
            j = j + 1;
        }
        let ghost before = out@;
        out.insert(j, p);
        proof {
            assert(v@.take(i + 1) =~= v@.take(i as int).push(p));
            assert forall|x: int| #[trigger] covers(out@, x) == #[trigger] covers(v@.take(i + 1), x) by {
                lemma_cover_insert(before, j as int, p, x);
                lemma_cover_push(v@.take(i as int), p, x);
                assert(covers(before, x) == covers(v@.take(i as int), x));
            }
            assert forall|a: int, b: int| 0 <= a < b < out@.len() implies (#[trigger] out@[a]).begin <= (#[trigger] out@[b]).begin by {
                if j < before.len() {
                    assert(before[j as int].begin > p.begin);
                }
                if a < j && b < j {
                    assert(out@[a] == before[a] && out@[b] == before[b]);
                } else if a < j && b == j {
                } else if a < j {
                    assert(out@[a] == before[a] && out@[b] == before[b - 1]);
                } else if a == j {
                    assert(out@[b] == before[b - 1]);
                    assert(before[j as int].begin <= before[b - 1].begin);
                } else {
                    assert(out@[a] == before[a - 1] && out@[b] == before[b - 1]);
                }
            }
            assert forall|k: int| 0 <= k < out@.len() implies (#[trigger] out@[k]).begin <= out@[k].end by {
                if k < j {
                    assert(out@[k] == before[k]);
                } else if k > j {
                    assert(out@[k] == before[k - 1]);
                }
            }
        }
        i = i + 1;
    }
    proof {
        assert(v@.take(v@.len() as int) =~= v@);
    }
    out
}

/// Merge intervals sorted by `begin` into the canonical form that covers
/// the same bytes: overlapping or adjacent intervals are joined.
fn merge_sorted(s: &Vec<RangePair>) -> (r: Vec<RangePair>)
    requires
        all_wf(s@),
        sorted_by_begin(s@),
    ensures
        canonical(r@),
        same_cover(r@, s@),
{
    let mut m: Vec<RangePair> = Vec::new();
    let n = s.len();
    if n == 0 {
        proof {
            assert forall|x: int| #[trigger] covers(m@, x) == #[trigger] covers(s@, x) by {}
        }
        return m;
    }
    m.push(s[0]);
    proof {
        assert(s@.take(1) =~= m@);
    }
    let mut i: usize = 1;
    while i < n
        invariant
            n == s@.len(),
            1 <= i <= n,
            m@.len() >= 1,
            all_wf(s@),
            sorted_by_begin(s@),
            canonical(m@),
            same_cover(m@, s@.take(i as int)),
            forall|j: int| i <= j < n ==> m@.last().begin <= (#[trigger] s@[j]).begin,
        decreases n - i,
    {
        let cur = s[i];
        let last_index = m.len() - 1;
        let last = m[last_index];
        let ghost before = m@;
        proof {
            assert(s@.take(i + 1) =~= s@.take(i as int).push(cur));
        }
        if last.end < cur.begin && cur.begin - last.end > 1 {
            m.push(cur);
            proof {
                assert forall|x: int| #[trigger] covers(m@, x) == #[trigger] covers(s@.take(i + 1), x) by {
                    lemma_cover_push(before, cur, x);
                    lemma_cover_push(s@.take(i as int), cur, x);
                    assert(covers(before, x) == covers(s@.take(i as int), x));
                }
                assert forall|j: int| i + 1 <= j < n implies m@.last().begin <= (#[trigger] s@[j]).begin by {
                    assert(s@[i as int].begin <= s@[j].begin);
                }
            }
        } else {
            let new_end = if last.end >= cur.end { last.end } else { cur.end };
            let q = RangePair::new(last.begin, new_end);
            m.set(last_index, q);
            proof {
                let d = before.drop_last();
                assert(before =~= d.push(last));
                assert(m@ =~= d.push(q));
                assert forall|x: int| #[trigger] covers(m@, x) == #[trigger] covers(s@.take(i + 1), x) by {
                    lemma_cover_push(d, q, x);
                    lemma_cover_push(d, last, x);
                    lemma_cover_push(s@.take(i as int), cur, x);
                    assert(covers(before, x) == covers(s@.take(i as int), x));
                }
            }
        }
        i = i + 1;
    }
    proof {
        assert(s@.take(n as int) =~= s@);
    }
    m
}

/// The canonical form of a list of well-formed intervals.
pub fn canonical_pairs(v: &Vec<RangePair>) -> (r: Vec<RangePair>)
    requires
        all_wf(v@),
    ensures
        canonical(r@),
        same_cover(r@, v@),
{
    let sorted = sort_by_begin(v);
    let r = merge_sorted(&sorted);
    proof {
        assert forall|x: int| #[trigger] covers(r@, x) == #[trigger] covers(v@, x) by {
            assert(covers(r@, x) == covers(sorted@, x));
        }
    }
    r
}

/// The 16 bytes of the record of `pair`.
pub fn encode_pair(pair: RangePair) -> (r: Vec<u8>)
    ensures
        r@ == record_bytes(pair),
{
    let b = u64_to_u8x8(pair.begin);
    let e = u64_to_u8x8(pair.end);
    let mut r: Vec<u8> = Vec::new();
    let mut i: usize = 0;
    while i < 8
        invariant
            i <= 8,
            r@ =~= b@.take(i as int),
        decreases 8 - i,
    {
        r.push(b[i]);
        i = i + 1;
    }
    let mut j: usize = 0;
    while j < 8
        invariant
            j <= 8,
            r@ =~= b@ + e@.take(j as int),
        decreases 8 - j,
    {
        r.push(e[j]);
        j = j + 1;
    }
    proof {
        assert(e@.take(8) =~= e@);
    }
    r
}

} // verus!
