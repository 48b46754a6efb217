use vstd::prelude::*;
use vstd::string::*;

use crate::error::Error;

verus! {

pub open spec fn is_digit(c: char) -> bool {
    '0' <= c <= '9'
}

/// The decimal value of the digits `s`.
pub open spec fn digits_value(s: Seq<char>) -> int
    decreases s.len(),
{
    if s.len() == 0 {
        0
    } else {
        digits_value(s.drop_last()) * 10 + (s.last() as int - '0' as int)
    }
}

pub open spec fn all_digits(s: Seq<char>) -> bool {
    forall|i: int| 0 <= i < s.len() ==> is_digit(#[trigger] s[i])
}

/// The digits of an unsigned number, after an optional `+` sign.
pub open spec fn digits_part(s: Seq<char>) -> Seq<char> {
    if s.len() > 0 && s[0] == '+' { s.skip(1) } else { s }
}

/// `s` reads as a `u64`: an optional `+`, then at least one digit, and a
/// value that fits.
pub open spec fn parses_u64(s: Seq<char>) -> bool {
    let d = digits_part(s);
    d.len() > 0 && all_digits(d) && digits_value(d) <= u64::MAX
}

pub open spec fn u64_value(s: Seq<char>) -> int {
    digits_value(digits_part(s))
}

proof fn lemma_digits_nonneg(s: Seq<char>)
    requires
        all_digits(s),
    ensures
        digits_value(s) >= 0,
    decreases s.len(),
{
    if s.len() > 0 {
        assert(all_digits(s.drop_last())) by {
            assert forall|i: int| 0 <= i < s.drop_last().len() implies is_digit(#[trigger] s.drop_last()[i]) by {
                assert(s.drop_last()[i] == s[i]);
            }
        }
        lemma_digits_nonneg(s.drop_last());
        assert(is_digit(s[s.len() - 1]));
    }
}

proof fn lemma_digits_prefix(s: Seq<char>, j: int)
    requires
        all_digits(s),
        0 <= j <= s.len(),
    ensures
        0 <= digits_value(s.take(j)) <= digits_value(s),
    decreases s.len() - j,
{
    if j < s.len() {
        lemma_digits_prefix(s, j + 1);
        assert(s.take(j + 1).drop_last() =~= s.take(j));
        assert(s.take(j + 1).last() == s[j]);
        assert(digits_value(s.take(j + 1)) == digits_value(s.take(j)) * 10 + (s[j] as int - '0' as int));
        assert(s[j] as int >= '0' as int);
        assert(digits_value(s.take(j)) >= 0);
        assert(is_digit(s[j]));
        assert(all_digits(s.take(j))) by {
            assert forall|i: int| 0 <= i < s.take(j).len() implies is_digit(#[trigger] s.take(j)[i]) by {
                assert(s.take(j)[i] == s[i]);
            }
        }
        lemma_digits_nonneg(s.take(j));
    } else {
        assert(s.take(j) =~= s);
        lemma_digits_nonneg(s);
    }
}

/// Read `s` as a decimal `u64`: an optional `+`, then digits.
pub fn parse_u64(s: &str) -> (r: Option<u64>)
    ensures
        r.is_some() == parses_u64(s@),
        r.is_some() ==> r.unwrap() == u64_value(s@),
{
    let n = s.unicode_len();
    let mut i: usize = 0;
    if n > 0 && s.get_char(0) == '+' {
        i = 1;
    }
    let ghost d = digits_part(s@);
    assert(d =~= s@.skip(i as int));
    if i >= n {
        return None;
    }
    let mut v: u64 = 0;
    let start = i;
    while i < n
        invariant
            n == s@.len(),
            start <= i <= n,
            d == s@.skip(start as int),
            d == digits_part(s@),
            all_digits(d.take(i - start)),
            v == digits_value(d.take(i - start)),
        decreases n - i,
    {
        let c = s.get_char(i);
        if !('0' <= c && c <= '9') {
            proof {
                assert(d[i - start] == c);
                assert(!is_digit(d[i - start]));
                assert(!all_digits(d));
            }
            return None;
        }
        let dv = ((c as u32) - ('0' as u32)) as u64;
        proof {
            assert(d.take(i - start + 1).drop_last() =~= d.take(i - start));
            assert(d.take(i - start + 1).last() == c);
        }
        if v > (u64::MAX - dv) / 10 {
            proof {
                assert(v * 10 + dv > u64::MAX) by (nonlinear_arith)
                    requires v > (u64::MAX - dv) / 10, dv <= 9;
                assert(digits_value(d.take(i - start + 1)) > u64::MAX);
                if all_digits(d) {
                    lemma_digits_prefix(d, i - start + 1);
                }
            }
            return None;
        }
        v = v * 10 + dv;
        i = i + 1;
        proof {
            assert forall|t: int| 0 <= t < i - start implies is_digit(#[trigger] d.take(i - start)[t]) by {
                if t < i - start - 1 {
                    assert(d.take(i - start)[t] == d.take(i - start - 1)[t]);
                }
            }
        }
    }
    proof {
        assert(d.take(n - start) =~= d);
    }
    Some(v)
}

/// `1024` to the power `k`.
pub open spec fn pow1024(k: nat) -> int
    decreases k,
{
    if k == 0 { 1 } else { 1024 * pow1024((k - 1) as nat) }
}

/// The rank of a size unit among `B, K, M, G, T` (the first `units` of
/// them), matched after upper-casing; `units` when it is none of them.
pub open spec fn unit_rank(c: char, units: nat) -> nat {
    let r: nat = if c == 'B' || c == 'b' {
        0
    } else if c == 'K' || c == 'k' {
        1
    } else if c == 'M' || c == 'm' {
        2
    } else if c == 'G' || c == 'g' {
        3
    } else if c == 'T' || c == 't' {
        4
    } else {
        5
    };
    if r < units { r } else { units }
}

/// The number that a size literal such as `100k` stands for: a number
/// followed by a unit among the first `units` of `B, K, M, G, T` (any case),
/// each one 1024 times the previous one; a trailing digit means plain
/// bytes; any other trailing unit counts as one step past the last unit.
pub open spec fn literal_value(s: Seq<char>, units: nat) -> Option<int> {
    if s.len() == 0 {
        None
    } else if is_digit(s.last()) {
        if parses_u64(s) { Some(u64_value(s)) } else { None }
    } else {
        let num = s.drop_last();
        if parses_u64(num) && u64_value(num) * pow1024(unit_rank(s.last(), units)) <= u64::MAX {
            Some(u64_value(num) * pow1024(unit_rank(s.last(), units)))
        } else {
            None
        }
    }
}

/// Parse a size literal with units among the first `units` of `B, K, M, G, T`.
#[verifier::loop_isolation(false)]
pub fn parse_size_literal(s: &str, units: u64) -> (r: Result<u64, Error>)
    requires
        units <= 5,
    ensures
        r.is_ok() == literal_value(s@, units as nat).is_some(),
        r.is_ok() ==> r.unwrap() == literal_value(s@, units as nat).unwrap(),
{
    let n = s.unicode_len();
    if n == 0 {
        return Err(Error::IsNotNumber(String::from_str(s)));
    }
    let unit = s.get_char(n - 1);
    if '0' <= unit && unit <= '9' {
        return match parse_u64(s) {
            Some(v) => Ok(v),
            None => Err(Error::IsNotNumber(String::from_str(s))),
        };
    }
    let num_str = s.substring_char(0, n - 1);
    proof {
        assert(num_str@ =~= s@.drop_last());
    }
    let num = match parse_u64(num_str) {
        Some(v) => v,
        None => {
            return Err(Error::IsNotNumber(String::from_str(s)));
        },
    };
    let rank: u64 = if unit == 'B' || unit == 'b' {
        0
    } else if unit == 'K' || unit == 'k' {
        1
    } else if unit == 'M' || unit == 'm' {
        2
    } else if unit == 'G' || unit == 'g' {
        3
    } else if unit == 'T' || unit == 't' {
        4
    } else {
        5
    };
    let rank = if rank < units { rank } else { units };
    assert(rank == unit_rank(unit, units as nat));
    let mut v: u64 = num;
    let mut i: u64 = 0;
    while i < rank
        invariant
            i <= rank,
            v == num * pow1024(i as nat),
            num >= 0,
        decreases rank - i,
    {
        proof {
            assert(pow1024((i + 1) as nat) == 1024 * pow1024(i as nat));
        }
        if v > u64::MAX / 1024 {
            proof {
                assert(v * 1024 > u64::MAX) by (nonlinear_arith)
                    requires v > u64::MAX / 1024;
                lemma_pow1024_grows(i as nat + 1, rank as nat);
                assert(num * pow1024((i + 1) as nat) == v * 1024) by (nonlinear_arith)
                    requires v == num * pow1024(i as nat), pow1024((i + 1) as nat) == 1024 * pow1024(i as nat);
                assert(num * pow1024(rank as nat) >= num * pow1024((i + 1) as nat)) by (nonlinear_arith)
                    requires pow1024(rank as nat) >= pow1024((i + 1) as nat), num >= 0;
            }
            return Err(Error::IsNotNumber(String::from_str(s)));
        }
        proof {
            assert(num * pow1024((i + 1) as nat) == v * 1024) by (nonlinear_arith)
                requires v == num * pow1024(i as nat), pow1024((i + 1) as nat) == 1024 * pow1024(i as nat);
        }
        v = v * 1024;
        i = i + 1;
    }
    Ok(v)
}

proof fn lemma_pow1024_grows(a: nat, b: nat)
    requires
        a <= b,
    ensures
        pow1024(a) <= pow1024(b),
        pow1024(a) >= 1,
    decreases b,
{
    if b > a {
        lemma_pow1024_grows(a, (b - 1) as nat);
    } else if a > 0 {
        lemma_pow1024_grows((a - 1) as nat, (a - 1) as nat);
    }
}

/// For every number `n` written in decimal digits and every unit among
/// `B, K, M, G, T` in either case, `n` followed by the unit reads as
/// `n · 1024^rank`, where the rank of `B` is 0 and of `T` is 4, whenever
/// that fits in a `u64`; otherwise it is rejected.
pub proof fn size_parser_law(digits: Seq<char>, unit: char)
    requires
        digits.len() > 0,
        all_digits(digits),
        digits[0] != '+',
        digits_value(digits) <= u64::MAX,
        unit == 'B' || unit == 'K' || unit == 'M' || unit == 'G' || unit == 'T' || unit == 'b' || unit == 'k'
            || unit == 'm' || unit == 'g' || unit == 't',
    ensures
        literal_value(digits.push(unit), 5) == (if digits_value(digits) * pow1024(unit_rank(unit, 5)) <= u64::MAX {
            Some(digits_value(digits) * pow1024(unit_rank(unit, 5)))
        } else {
            None::<int>
        }),
        unit_rank(unit, 5) == (if unit == 'B' || unit == 'b' {
            0nat
        } else if unit == 'K' || unit == 'k' {
            1
        } else if unit == 'M' || unit == 'm' {
            2
        } else if unit == 'G' || unit == 'g' {
            3
        } else {
            4
        }),
{
    let s = digits.push(unit);
    assert(s.drop_last() =~= digits);
    assert(digits_part(digits) == digits);
}

/// Convert a size literal to a number of bytes, e.g. `100k` → `100 * 1024`,
/// with units `B, K, M, G, T`.
pub trait ParseLiteralNumber {
    /// The text of the literal.
    spec fn literal_text(&self) -> Seq<char>;

    fn literal_number(&self) -> (r: Result<u64, Error>)
        ensures
            r.is_ok() == literal_value(self.literal_text(), 5).is_some(),
            r.is_ok() ==> r.unwrap() == literal_value(self.literal_text(), 5).unwrap(),
    ;
}

impl<'a> ParseLiteralNumber for &'a str {
    open spec fn literal_text(&self) -> Seq<char> {
        (*self)@
    }

    fn literal_number(&self) -> (r: Result<u64, Error>) {
        parse_size_literal(*self, 5)
    }
}

/// Convert a size literal to a number of bytes, with units `B, K, M, G`.
pub trait LiteralSize {
    /// The text of the literal.
    spec fn literal_text(&self) -> Seq<char>;

    fn literal_size(&self) -> (r: Result<u64, Error>)
        ensures
            r.is_ok() == literal_value(self.literal_text(), 4).is_some(),
            r.is_ok() ==> r.unwrap() == literal_value(self.literal_text(), 4).unwrap(),
    ;
}

impl<'a> LiteralSize for &'a str {
    open spec fn literal_text(&self) -> Seq<char> {
        (*self)@
    }

    fn literal_size(&self) -> (r: Result<u64, Error>) {
        parse_size_literal(*self, 4)
    }
}

} // verus!
