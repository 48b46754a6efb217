use vstd::prelude::*;
use vstd::string::*;

verus! {

/// The pieces of the progress bar: the bar, its right end, its left end.
pub fn bars() -> (r: (&'static str, &'static str, &'static str))
    ensures
        r.0@ == "━"@,
        r.1@ == "╸"@,
        r.2@ == "╺"@,
{
    ("━", "╸", "╺")
}

/// `s` repeated `n` times.
pub open spec fn repeat(s: Seq<char>, n: nat) -> Seq<char>
    decreases n,
{
    if n == 0 { seq![] } else { repeat(s, (n - 1) as nat) + s }
}

fn repeat_str(s: &str, n: usize) -> (r: String)
    ensures
        r@ == repeat(s@, n as nat),
{
    let mut out = String::new();
    let mut i: usize = 0;
    while i < n
        invariant
            i <= n,
            out@ == repeat(s@, i as nat),
        decreases n - i,
    {
        out.append(s);
        i = i + 1;
    }
    out
}

/// The done and undone parts of the progress bar: the done part ends with
/// the bar's right end unless nothing is left undone; the undone part
/// starts with the bar's left end.
pub fn du_bars(bar_done_length: usize, bar_undone_length: usize) -> (r: (String, String))
    ensures
        r.0@ == (if bar_done_length == 0 {
            seq![]
        } else if bar_undone_length > 0 {
            repeat("━"@, (bar_done_length - 1) as nat) + "╸"@
        } else {
            repeat("━"@, bar_done_length as nat)
        }),
        r.1@ == (if bar_undone_length == 0 { seq![] } else { "╺"@ + repeat("━"@, (bar_undone_length - 1) as nat) }),
{
    let (bar, bar_right, bar_left) = bars();
    let bar_done_str = if bar_done_length > 0 {
        if bar_undone_length > 0 {
            let mut s = repeat_str(bar, bar_done_length - 1);
            s.append(bar_right);
            s
        } else {
            repeat_str(bar, bar_done_length)
        }
    } else {
        String::new()
    };
    let bar_undone_str = if bar_undone_length > 0 {
        let mut s = String::from_str(bar_left);
        let rest = repeat_str(bar, bar_undone_length - 1);
        s.append(rest.as_str());
        s
    } else {
        String::new()
    };
    (bar_done_str, bar_undone_str)
}

} // verus!
