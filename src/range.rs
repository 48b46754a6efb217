use vstd::prelude::*;

verus! {

/// A closed interval `[begin, end]` of byte offsets in the output file.
#[derive(Debug, Clone, Copy, PartialEq, Eq, Structural)]
pub struct RangePair {
    pub begin: u64,
    pub end: u64,
}

/// Whether byte `x` lies in one of the intervals of `s`.
pub open spec fn covers(s: Seq<RangePair>, x: int) -> bool {
    exists|i: int| 0 <= i < s.len() && (#[trigger] s[i]).begin <= x <= s[i].end
}

/// The two lists cover the same bytes.
pub open spec fn same_cover(a: Seq<RangePair>, b: Seq<RangePair>) -> bool {
    forall|x: int| #[trigger] covers(a, x) == #[trigger] covers(b, x)
}

/// Every interval of `s` is well formed (`begin <= end`).
pub open spec fn all_wf(s: Seq<RangePair>) -> bool {
    forall|i: int| 0 <= i < s.len() ==> (#[trigger] s[i]).begin <= s[i].end
}

/// Sorted, pairwise disjoint and not even adjacent: the canonical form of a ledger.
pub open spec fn canonical(s: Seq<RangePair>) -> bool {
    &&& all_wf(s)
    &&& forall|i: int| 0 <= i < s.len() - 1 ==> (#[trigger] s[i]).end + 1 < s[i + 1].begin
}

/// Sum of the lengths of the intervals of `s`.
pub open spec fn total_length(s: Seq<RangePair>) -> int
    decreases s.len(),
{
    if s.len() == 0 {
        0
    } else {
        total_length(s.drop_last()) + (s.last().end - s.last().begin + 1)
    }
}

/// The `i`-th piece when `[a, b]` is cut into pieces of `k` bytes.
pub open spec fn piece(a: int, b: int, k: int, i: int) -> RangePair {
    RangePair {
        begin: (a + i * k) as u64,
        end: (if a + (i + 1) * k - 1 <= b { a + (i + 1) * k - 1 } else { b }) as u64,
    }
}

/// How many pieces of at most `k` bytes `[a, b]` is cut into.
pub open spec fn piece_count(a: int, b: int, k: int) -> int {
    if a <= b { (b - a) / k + 1 } else { 0 }
}

impl RangePair {
    pub open spec fn wf(self) -> bool {
        self.begin <= self.end
    }

    /// The number of bytes in the interval.
    pub open spec fn spec_length(self) -> int {
        self.end - self.begin + 1
    }

    pub fn new(begin: u64, end: u64) -> (r: RangePair)
        ensures
            r.begin == begin,
            r.end == end,
    {
        RangePair { begin, end }
    }

    /// The length of the closed interval, `end - begin + 1`.
    pub fn length(&self) -> (r: u64)
        requires
            self.wf(),
            self.spec_length() <= u64::MAX,
        ensures
            r == self.spec_length(),
    {
        self.end - self.begin + 1
    }
}

/// Cut `pair` into consecutive pieces of `chunk_size` bytes; the last piece
/// may be shorter.  An empty interval (`begin > end`) gives no piece.
pub fn split_pair(pair: &RangePair, chunk_size: u64) -> (r: Vec<RangePair>)
    requires
        chunk_size > 0,
    ensures
        r@.len() == piece_count(pair.begin as int, pair.end as int, chunk_size as int),
        forall|i: int|
            0 <= i < r@.len() ==> #[trigger] r@[i] == piece(
                pair.begin as int,
                pair.end as int,
                chunk_size as int,
                i,
            ),
{
    let mut stack: Vec<RangePair> = Vec::new();
    let a = pair.begin;
    let b = pair.end;
    let k = chunk_size;
    if a > b {
        return stack;
    }
    let mut begin = a;
    assert(stack@.len() * k == 0) by (nonlinear_arith)
        requires stack@.len() == 0;
    loop
        invariant_except_break
            a <= begin <= b,
            begin == a + stack@.len() * k,
        invariant
            k > 0,
            forall|i: int| 0 <= i < stack@.len() ==> #[trigger] stack@[i] == piece(a as int, b as int, k as int, i),
        ensures
            stack@.len() == piece_count(a as int, b as int, k as int),
            forall|i: int| 0 <= i < stack@.len() ==> #[trigger] stack@[i] == piece(a as int, b as int, k as int, i),
        decreases b - begin,
    {
        let n = stack.len();
        proof {
            assert((n + 1) * k == n * k + k) by (nonlinear_arith);
        }
        if b - begin >= k - 1 {
            let end = begin + (k - 1);
            stack.push(RangePair::new(begin, end));
            if end == b {
                proof {
                    assert((b - a) == n * k + k - 1);
                    assert((b - a) / (k as int) == n) by (nonlinear_arith)
                        requires (b - a) == n * k + k - 1, k > 0, n >= 0;
                }
                break;
            }
            begin = end + 1;
        } else {
            stack.push(RangePair::new(begin, b));
            proof {
                assert((b - a) / (k as int) == n) by (nonlinear_arith)
                    requires (b - a) >= n * k, (b - a) < n * k + k - 1, k > 0, n >= 0;
            }
            break;
        }
    }
    stack
}

/// Sorted by `begin`.
pub open spec fn sorted_by_begin(s: Seq<RangePair>) -> bool {
    forall|i: int, j: int| 0 <= i < j < s.len() ==> (#[trigger] s[i]).begin <= (#[trigger] s[j]).begin
}

/// Adding an interval at the end adds its bytes to the cover.
pub proof fn lemma_cover_push(s: Seq<RangePair>, p: RangePair, x: int)
    ensures
        covers(s.push(p), x) == (covers(s, x) || (p.begin <= x <= p.end)),
{
    let t = s.push(p);
    if covers(s, x) {
        let i = choose|i: int| 0 <= i < s.len() && (#[trigger] s[i]).begin <= x <= s[i].end;
        assert(t[i] == s[i]);
    }
    if p.begin <= x <= p.end {
        assert(t[s.len() as int] == p);
    }
    if covers(t, x) {
        let i = choose|i: int| 0 <= i < t.len() && (#[trigger] t[i]).begin <= x <= t[i].end;
        if i < s.len() {
            assert(s[i] == t[i]);
        }
    }
}

/// The cover of two lists one after the other is the union of their covers.
pub proof fn lemma_cover_concat(a: Seq<RangePair>, b: Seq<RangePair>, x: int)
    ensures
        covers(a + b, x) == (covers(a, x) || covers(b, x)),
{
    let t = a + b;
    if covers(a, x) {
        let i = choose|i: int| 0 <= i < a.len() && (#[trigger] a[i]).begin <= x <= a[i].end;
        assert(t[i] == a[i]);
    }
    if covers(b, x) {
        let i = choose|i: int| 0 <= i < b.len() && (#[trigger] b[i]).begin <= x <= b[i].end;
        assert(t[a.len() + i] == b[i]);
    }
    if covers(t, x) {
        let i = choose|i: int| 0 <= i < t.len() && (#[trigger] t[i]).begin <= x <= t[i].end;
        if i < a.len() {
            assert(a[i] == t[i]);
        } else {
            assert(b[i - a.len()] == t[i]);
        }
    }
}

/// In a canonical list every interval ends more than one byte before any
/// later interval begins.
pub proof fn lemma_canonical_pairwise(s: Seq<RangePair>, i: int, j: int)
    requires
        canonical(s),
        0 <= i < j < s.len(),
    ensures
        s[i].end + 1 < s[j].begin,
    decreases j - i,
{
    if j > i + 1 {
        lemma_canonical_pairwise(s, i, j - 1);
        assert(s[j - 1].end + 1 < s[j].begin);
    }
}

/// Inserting an interval anywhere adds its bytes to the cover.
pub proof fn lemma_cover_insert(s: Seq<RangePair>, j: int, p: RangePair, x: int)
    requires
        0 <= j <= s.len(),
    ensures
        covers(s.insert(j, p), x) == (covers(s, x) || (p.begin <= x <= p.end)),
{
    let t = s.insert(j, p);
    if covers(s, x) {
        let i = choose|i: int| 0 <= i < s.len() && (#[trigger] s[i]).begin <= x <= s[i].end;
        if i < j {
            assert(t[i] == s[i]);
        } else {
            assert(t[i + 1] == s[i]);
        }
    }
    if p.begin <= x <= p.end {
        assert(t[j] == p);
    }
    if covers(t, x) {
        let i = choose|i: int| 0 <= i < t.len() && (#[trigger] t[i]).begin <= x <= t[i].end;
        if i < j {
            assert(s[i] == t[i]);
        } else if i > j {
            assert(s[i - 1] == t[i]);
        }
    }
}

/// The pieces of `[a, b]` as a sequence.
pub open spec fn pieces(a: int, b: int, k: int) -> Seq<RangePair> {
    Seq::new(piece_count(a, b, k) as nat, |i: int| piece(a, b, k, i))
}

/// Splitting `[a, b]` into pieces of `k` bytes gives pieces of exactly `k`
/// bytes except the last one, which holds between 1 and `k` bytes; the pieces
/// follow each other without gap or overlap, start at `a`, end at `b`, and so
/// cover exactly the bytes of `[a, b]`.
pub proof fn split_pair_law(a: u64, b: u64, k: u64)
    requires
        k > 0,
        a <= b,
    ensures
        ({
            let s = pieces(a as int, b as int, k as int);
            &&& s.len() >= 1
            &&& s[0].begin == a
            &&& s[s.len() - 1].end == b
            &&& forall|i: int| 0 <= i < s.len() - 1 ==> (#[trigger] s[i]).spec_length() == k
            &&& 1 <= s[s.len() - 1].spec_length() <= k
            &&& forall|i: int| 0 <= i < s.len() - 1 ==> (#[trigger] s[i]).end + 1 == s[i + 1].begin
            &&& forall|x: int| #[trigger] covers(s, x) <==> a <= x <= b
        }),
{
    let s = pieces(a as int, b as int, k as int);
    let d = (b - a) as int;
    let ki = k as int;
    let n = d / ki + 1;
    assert(d / ki * ki <= d && d < d / ki * ki + ki) by (nonlinear_arith)
        requires d >= 0, ki > 0;
    assert((d / ki + 1) * ki == d / ki * ki + ki) by (nonlinear_arith);
    assert forall|i: int| 0 <= i < n implies (#[trigger] s[i]).begin == a + i * ki && a <= a + i * ki <= b by {
        assert(0 <= i * ki <= (d / ki) * ki) by (nonlinear_arith)
            requires 0 <= i <= d / ki, ki > 0;
    }
    assert forall|i: int| 0 <= i < n - 1 implies (#[trigger] s[i]).end == a + (i + 1) * ki - 1 && a + (i + 1) * ki == a + i * ki + ki by {
        assert((i + 1) * ki <= (d / ki) * ki) by (nonlinear_arith)
            requires i + 1 <= d / ki, ki > 0;
        assert((i + 1) * ki == i * ki + ki) by (nonlinear_arith);
    }
    assert((n - 1 + 1) * ki == (d / ki + 1) * ki);
    assert(s[n - 1].end == b);
    assert forall|i: int| 0 <= i < s.len() - 1 implies (#[trigger] s[i]).end + 1 == s[i + 1].begin by {
        assert(s[i + 1].begin == a + (i + 1) * ki);
    }
    assert forall|x: int| #[trigger] covers(s, x) <==> a <= x <= b by {
        if a <= x <= b {
            let i = (x - a) / ki;
            assert(i * ki <= x - a < i * ki + ki && 0 <= i <= d / ki) by (nonlinear_arith)
                requires x - a >= 0, x - a <= d, ki > 0, i == (x - a) / ki;
            assert((i + 1) * ki == i * ki + ki) by (nonlinear_arith);
            assert(s[i].begin <= x <= s[i].end);
        }
        if covers(s, x) {
            let i = choose|i: int| 0 <= i < s.len() && (#[trigger] s[i]).begin <= x <= s[i].end;
            assert(a <= a + i * ki <= b);
        }
    }
    assert(s[0].begin == a);
    assert(s.len() == n);
    assert(s[n - 1].begin == a + (d / ki) * ki);
    assert(s[n - 1].spec_length() == d - (d / ki) * ki + 1);
    assert(1 <= s[s.len() - 1].spec_length() <= k);
    assert(forall|i: int| 0 <= i < s.len() - 1 ==> (#[trigger] s[i]).spec_length() == k);
}

} // verus!
