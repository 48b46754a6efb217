use vstd::prelude::*;

use crate::error::Error;
use crate::ledger::{
    aligned, gaps_cover_the_rest, gap_list, ledger_records, ledger_total, within, RangeRecorder,
};
use crate::range::{
    all_wf, canonical, covers, lemma_cover_concat, piece, piece_count, pieces, same_cover,
    split_pair, split_pair_law, RangePair,
};

verus! {

/// What a probe of the resource found out about its length.
#[derive(Debug, Clone, Copy, PartialEq, Eq, Structural)]
pub enum ContentLengthValue {
    /// The server answered a range request: `Content-Range: .../N`.
    RangeLength(u64),
    /// The server ignored the range and sent `Content-Length: N`.
    DirectLength(u64),
    /// Neither header was there.
    NoLength,
}

/// What an HTTP task has to do after the probe.
#[derive(Debug, Clone, PartialEq, Eq)]
pub enum HttpPlan {
    /// The resource is empty: create an empty output and remove the ledger.
    Empty,
    /// No range support: one linear download from offset 0, without ledger.
    Direct,
    /// Ranged download of the chunks of this stack; popping it yields the
    /// chunks in ascending order.
    Ranged(Vec<RangePair>),
}

/// The pieces of every gap of `g`, gap after gap.
pub open spec fn chunks_of(g: Seq<RangePair>, k: int) -> Seq<RangePair>
    decreases g.len(),
{
    if g.len() == 0 {
        seq![]
    } else {
        chunks_of(g.drop_last(), k) + pieces(g.last().begin as int, g.last().end as int, k)
    }
}

/// A task is already complete when its output exists and its ledger does not.
pub fn is_completed(output_exists: bool, ledger_exists: bool) -> (r: bool)
    ensures
        r == (output_exists && !ledger_exists),
{
    output_exists && !ledger_exists
}

/// How many workers to start: never more than there are chunks.
pub fn worker_count(concurrency: u64, pending: usize) -> (r: u64)
    ensures
        r == (if concurrency <= pending { concurrency as int } else { pending as int }),
{
    if concurrency <= pending as u64 {
        concurrency
    } else {
        pending as u64
    }
}

/// The stack of chunks for the gaps `gaps`: each gap cut into pieces of
/// `chunk_size` bytes, the first chunk on top.
pub fn make_stack(gaps: &Vec<RangePair>, chunk_size: u64) -> (r: Vec<RangePair>)
    requires
        chunk_size > 0,
    ensures
        r@ == chunks_of(gaps@, chunk_size as int).reverse(),
{
    let mut all: Vec<RangePair> = Vec::new();
    let mut i: usize = 0;
    while i < gaps.len()
        invariant
            i <= gaps@.len(),
            chunk_size > 0,
            all@ =~= chunks_of(gaps@.take(i as int), chunk_size as int),
        decreases gaps@.len() - i,
    {
        let list = split_pair(&gaps[i], chunk_size);
        let mut j: usize = 0;
        let ghost start = all@;
        while j < list.len()
            invariant
                j <= list@.len(),
                all@ =~= start + list@.take(j as int),
            decreases list@.len() - j,
        {
            all.push(list[j]);
            j = j + 1;
        }
        proof {
            let g = gaps@[i as int];
            assert(list@ =~= pieces(g.begin as int, g.end as int, chunk_size as int));
            assert(gaps@.take(i + 1).drop_last() =~= gaps@.take(i as int));
            assert(list@.take(list@.len() as int) =~= list@);
        }
        i = i + 1;
    }
    proof {
        assert(gaps@.take(gaps@.len() as int) =~= gaps@);
    }
    let mut stack: Vec<RangePair> = Vec::new();
    let n = all.len();
    let mut k: usize = n;
    while k > 0
        invariant
            k <= n,
            n == all@.len(),
            stack@ =~= all@.reverse().take((n - k) as int),
        decreases k,
    {
        k = k - 1;
        stack.push(all[k]);
    }
    proof {
        assert(all@.reverse().take(n as int) =~= all@.reverse());
    }
    stack
}

proof fn lemma_piece_at(a: u64, b: u64, k: u64, i: int)
    requires
        k > 0,
        a <= b,
        0 <= i < piece_count(a as int, b as int, k as int),
    ensures
        piece(a as int, b as int, k as int, i).begin == a + i * k,
        a <= a + i * k <= b,
        piece(a as int, b as int, k as int, i).begin <= piece(a as int, b as int, k as int, i).end <= b,
        piece(a as int, b as int, k as int, i).end <= a + i * k + k - 1,
{
    let d = (b - a) as int;
    let ki = k as int;
    assert(0 <= i * ki <= (d / ki) * ki <= d) by (nonlinear_arith)
        requires 0 <= i <= d / ki, ki > 0, d >= 0;
    assert((i + 1) * ki == i * ki + ki) by (nonlinear_arith);
}

proof fn lemma_pieces_facts(a: u64, b: u64, k: u64)
    requires
        k > 0,
        a <= b,
    ensures
        forall|i: int| 0 <= i < pieces(a as int, b as int, k as int).len() ==> (#[trigger] pieces(a as int, b as int, k as int)[i]).begin <= pieces(a as int, b as int, k as int)[i].end
            && pieces(a as int, b as int, k as int)[i].spec_length() <= k && a <= pieces(a as int, b as int, k as int)[i].begin
            && pieces(a as int, b as int, k as int)[i].end <= b,
        forall|i: int, j: int| 0 <= i < j < pieces(a as int, b as int, k as int).len() ==> (#[trigger] pieces(a as int, b as int, k as int)[i]).end < (#[trigger] pieces(a as int, b as int, k as int)[j]).begin,
        forall|x: int| #[trigger] covers(pieces(a as int, b as int, k as int), x) == (a <= x <= b),
{
    let p = pieces(a as int, b as int, k as int);
    assert forall|i: int| 0 <= i < p.len() implies (#[trigger] p[i]).begin <= p[i].end
        && p[i].spec_length() <= k && a <= p[i].begin && p[i].end <= b by {
        lemma_piece_at(a, b, k, i);
    }
    assert forall|i: int, j: int| 0 <= i < j < p.len() implies (#[trigger] p[i]).end < (#[trigger] p[j]).begin by {
        lemma_piece_at(a, b, k, i);
        lemma_piece_at(a, b, k, j);
        assert(i * (k as int) + (k as int) <= j * (k as int)) by (nonlinear_arith) requires i + 1 <= j, k > 0;
    }
    split_pair_law(a, b, k);
}

/// Cutting canonical gaps into chunks gives strictly increasing chunks of
/// at most `k` bytes that cover the bytes of the gaps and nothing else.
pub proof fn lemma_chunks_cover(g: Seq<RangePair>, k: u64)
    requires
        k > 0,
        canonical(g),
    ensures
        forall|i: int, j: int| 0 <= i < j < chunks_of(g, k as int).len() ==> (#[trigger] chunks_of(g, k as int)[i]).end < (#[trigger] chunks_of(g, k as int)[j]).begin,
        forall|i: int| 0 <= i < chunks_of(g, k as int).len() ==> (#[trigger] chunks_of(g, k as int)[i]).begin <= chunks_of(g, k as int)[i].end
            && chunks_of(g, k as int)[i].spec_length() <= k,
        forall|x: int| #[trigger] covers(chunks_of(g, k as int), x) == covers(g, x),
        g.len() > 0 ==> forall|i: int| 0 <= i < chunks_of(g, k as int).len() ==> (#[trigger] chunks_of(g, k as int)[i]).end <= g.last().end,
    decreases g.len(),
{
    let c = chunks_of(g, k as int);
    if g.len() == 0 {
        assert forall|x: int| #[trigger] covers(c, x) == covers(g, x) by {}
    } else {
        let d = g.drop_last();
        let last = g.last();
        assert(canonical(d)) by {
            assert forall|i: int| 0 <= i < d.len() - 1 implies (#[trigger] d[i]).end + 1 < d[i + 1].begin by {
                assert(d[i] == g[i] && d[i + 1] == g[i + 1]);
            }
            assert forall|i: int| 0 <= i < d.len() implies (#[trigger] d[i]).begin <= d[i].end by {
                assert(d[i] == g[i]);
            }
        }
        lemma_chunks_cover(d, k);
        let cd = chunks_of(d, k as int);
        let p = pieces(last.begin as int, last.end as int, k as int);
        assert(last.begin <= last.end);
        lemma_pieces_facts(last.begin, last.end, k);
        assert(c == cd + p);
        if d.len() > 0 {
            assert(d.last() == g[g.len() - 2]);
            assert(d.last().end + 1 < last.begin);
        }
        assert forall|i: int, j: int| 0 <= i < j < c.len() implies (#[trigger] c[i]).end < (#[trigger] c[j]).begin by {
            if j < cd.len() {
                assert(c[i] == cd[i] && c[j] == cd[j]);
            } else if i < cd.len() {
                assert(c[i] == cd[i] && c[j] == p[j - cd.len()]);
            } else {
                assert(c[i] == p[i - cd.len()] && c[j] == p[j - cd.len()]);
            }
        }
        assert forall|i: int| 0 <= i < c.len() implies (#[trigger] c[i]).begin <= c[i].end
            && c[i].spec_length() <= k && c[i].end <= g.last().end by {
            if i < cd.len() {
                assert(c[i] == cd[i]);
            } else {
                assert(c[i] == p[i - cd.len()]);
            }
        }
        assert forall|x: int| #[trigger] covers(c, x) == covers(g, x) by {
            lemma_cover_concat(cd, p, x);
            assert(g =~= d.push(last));
            crate::range::lemma_cover_push(d, last, x);
        }
    }
}

/// `stack` is the chunk stack of the ledger `b`: the pieces of the gaps left
/// by the canonical pairs of its records, first chunk on top; and when the
/// records lie inside `[0, total)`, the stack covers exactly the bytes that
/// are still missing.
pub open spec fn stack_of_ledger(stack: Seq<RangePair>, b: Seq<u8>, k: int) -> bool {
    &&& exists|v: Seq<RangePair>|
        canonical(v) && same_cover(v, ledger_records(b)) && stack == chunks_of(gap_list(v, ledger_total(b)), k).reverse()
    &&& within(ledger_records(b), ledger_total(b)) ==> forall|x: int| #[trigger] covers(stack, x)
        == (0 <= x < ledger_total(b) && !covers(ledger_records(b), x))
}

/// The ledger bytes that a task starts from: the existing ledger when the
/// output exists, a fresh empty one otherwise.
pub open spec fn start_ledger(output_exists: bool, b: Seq<u8>) -> Seq<u8> {
    if output_exists { b } else { Seq::empty() }
}

/// Decide, after the probe, how an HTTP task downloads: reconcile the ledger
/// with the probed length and plan the chunks.
///
/// Without range support the task is direct and the ledger is not touched.
/// With range support of length `cl`, the task starts from the ledger read
/// from disk when the output exists, from an empty ledger otherwise, and:
/// both lengths zero means an empty resource; a stored length other than
/// zero and `cl` is fatal; a stored zero gets `cl` written (fresh
/// download); a stored `cl` gets the ledger compacted (resume).  The plan is
/// then the chunk stack of the ledger.  The caller writes the ledger back
/// (truncate, then `as_bytes()`) when the plan is ranged.
pub fn plan_http(probe: ContentLengthValue, output_exists: bool, ledger: &mut RangeRecorder, chunk_size: u64) -> (r: Result<HttpPlan, Error>)
    requires
        chunk_size > 0,
    ensures
        match probe {
            ContentLengthValue::RangeLength(cl) => {
                let base = start_ledger(output_exists, old(ledger)@);
                let pre = ledger_total(base);
                if pre == 0 && cl == 0 {
                    r matches Ok(HttpPlan::Empty) && final(ledger)@ == base
                } else if pre != 0 && pre != cl {
                    r == Err::<HttpPlan, Error>(Error::ContentLengthIsNotConsistent) && final(ledger)@ == base
                } else {
                    &&& ledger_total(final(ledger)@) == cl
                    &&& (pre == 0 ==> final(ledger)@ == crate::bytes::be_bytes(cl) + (if base.len() > 8 { base.subrange(8, base.len() as int) } else { Seq::empty() }))
                    &&& (pre != 0 && all_wf(ledger_records(base)) ==> aligned(final(ledger)@)
                        && canonical(ledger_records(final(ledger)@))
                        && same_cover(ledger_records(final(ledger)@), ledger_records(base)))
                    &&& r.is_ok() == all_wf(ledger_records(final(ledger)@))
                    &&& all_wf(ledger_records(base)) ==> all_wf(ledger_records(final(ledger)@))
                    &&& (r matches Ok(HttpPlan::Ranged(stack)) ==> stack_of_ledger(stack@, final(ledger)@, chunk_size as int))
                    &&& (r is Ok ==> r matches Ok(HttpPlan::Ranged(_)))
                }
            },
            _ => r matches Ok(HttpPlan::Direct) && final(ledger)@ == old(ledger)@,
        },
{
    let cl = match probe {
        ContentLengthValue::RangeLength(cl) => cl,
        _ => return Ok(HttpPlan::Direct),
    };
    if !output_exists {
        *ledger = RangeRecorder::new(Vec::new());
    }
    proof {
        assert(ledger@ == start_ledger(output_exists, old(ledger)@));
    }
    let ghost base = ledger@;
    let pre = ledger.total();
    if pre == 0 && cl == 0 {
        return Ok(HttpPlan::Empty);
    }
    if pre != 0 && pre != cl {
        return Err(Error::ContentLengthIsNotConsistent);
    }
    if pre == 0 {
        ledger.write_total(cl);
        proof {
            if base.len() < 8 {
                assert(ledger_records(ledger@) =~= Seq::<RangePair>::empty());
            }
        }
    } else {
        ledger.rewrite()?;
    }
    let gaps = ledger.gaps()?;
    let stack = make_stack(&gaps, chunk_size);
    proof {
        let b = ledger@;
        let total = ledger_total(b);
        let recs = ledger_records(b);
        let v = choose|v: Seq<RangePair>| canonical(v) && same_cover(v, recs) && gaps@ == gap_list(v, total);
        if within(recs, total) {
            resume_fetches_missing(v, recs, total, chunk_size);
        }
    }
    Ok(HttpPlan::Ranged(stack))
}

/// Reversing a list does not change what it covers.
pub proof fn lemma_cover_reverse(s: Seq<RangePair>, x: int)
    ensures
        covers(s.reverse(), x) == covers(s, x),
{
    let r = s.reverse();
    if covers(s, x) {
        let i = choose|i: int| 0 <= i < s.len() && (#[trigger] s[i]).begin <= x <= s[i].end;
        assert(r[s.len() - 1 - i] == s[i]);
    }
    if covers(r, x) {
        let i = choose|i: int| 0 <= i < r.len() && (#[trigger] r[i]).begin <= x <= r[i].end;
        assert(r[i] == s[s.len() - 1 - i]);
    }
}

/// On a resumed download, the chunks planned from a ledger whose records
/// lie inside `[0, total)` are disjoint, hold at most `chunk_size` bytes
/// each, and cover exactly the bytes of `[0, total)` that the ledger does
/// not: a rerun fetches every missing byte once and nothing already on disk.
pub proof fn resume_fetches_missing(v: Seq<RangePair>, records: Seq<RangePair>, total: u64, chunk_size: u64)
    requires
        chunk_size > 0,
        canonical(v),
        same_cover(v, records),
        within(records, total),
    ensures
        forall|x: int| #[trigger] covers(chunks_of(gap_list(v, total), chunk_size as int).reverse(), x)
            == (0 <= x < total && !covers(records, x)),
        forall|i: int, j: int| 0 <= i < j < chunks_of(gap_list(v, total), chunk_size as int).len()
            ==> (#[trigger] chunks_of(gap_list(v, total), chunk_size as int)[i]).end
            < (#[trigger] chunks_of(gap_list(v, total), chunk_size as int)[j]).begin,
        forall|i: int| 0 <= i < chunks_of(gap_list(v, total), chunk_size as int).len()
            ==> (#[trigger] chunks_of(gap_list(v, total), chunk_size as int)[i]).spec_length() <= chunk_size,
{
    assert(within(v, total)) by {
        assert forall|i: int| 0 <= i < v.len() implies (#[trigger] v[i]).end < total by {
            assert(covers(v, v[i].end as int));
            assert(covers(records, v[i].end as int));
            let j = choose|j: int| 0 <= j < records.len() && (#[trigger] records[j]).begin <= v[i].end <= records[j].end;
        }
    }
    gaps_cover_the_rest(v, total);
    let g = gap_list(v, total);
    lemma_chunks_cover(g, chunk_size);
    assert forall|x: int| #[trigger] covers(chunks_of(g, chunk_size as int).reverse(), x)
        == (0 <= x < total && !covers(records, x)) by {
        lemma_cover_reverse(chunks_of(g, chunk_size as int), x);
        assert(covers(v, x) == covers(records, x));
        if covers(g, x) {
            assert(!(covers(v, x) && covers(g, x)));
        }
    }
}

} // verus!
