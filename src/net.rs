use vstd::prelude::*;
use vstd::string::*;

use crate::error::Error;
use crate::liberal::{parse_u64, parses_u64, u64_value};
use crate::plan::ContentLengthValue;

verus! {

/// The serialization of the URL that `url::Url::parse` reads from `s`, if it
/// reads one.
pub uninterp spec fn parsed_url(s: Seq<char>) -> Option<Seq<char>>;

/// The serialization of `reference` resolved against the URL `base` by
/// `url::Url::join`, if both parse.
pub uninterp spec fn joined_url(base: Seq<char>, reference: Seq<char>) -> Option<Seq<char>>;

/// What `str::to_lowercase` makes of `s`.
pub uninterp spec fn lower_of(s: Seq<char>) -> Seq<char>;

#[verifier::external_type_specification]
#[verifier::external_body]
pub struct ExParseError(url::ParseError);

/// Relies on `url::Url::parse`: the URL read from `s`, as its serialization
/// (`From<Url> for String`).  The result depends on the text alone.
#[verifier::external_body]
fn parse_url(s: &str) -> (r: Result<String, url::ParseError>)
    ensures
        match r {
            Ok(t) => parsed_url(s@) == Some(t@),
            Err(_) => parsed_url(s@).is_none(),
        },
{
    url::Url::parse(s).map(String::from)
}

/// Relies on `url::Url::parse` for `base` and `url::Url::join` for
/// `reference`: the resolved URL, as its serialization.  The result depends
/// on the two texts alone.
#[verifier::external_body]
fn join_on(base: &str, reference: &str) -> (r: Result<String, url::ParseError>)
    ensures
        match r {
            Ok(t) => joined_url(base@, reference@) == Some(t@),
            Err(_) => joined_url(base@, reference@).is_none(),
        },
{
    match url::Url::parse(base) {
        Ok(b) => b.join(reference).map(String::from),
        Err(e) => Err(e),
    }
}

/// Relies on `str::to_lowercase`: the result depends on the characters alone.
#[verifier::external_body]
fn lowercase(s: &str) -> (r: String)
    ensures
        r@ == lower_of(s@),
{
    s.to_lowercase()
}

/// `s` starts with `http` in any case.
pub open spec fn starts_with_http(s: Seq<char>) -> bool {
    &&& s.len() >= 4
    &&& (s[0] == 'h' || s[0] == 'H')
    &&& (s[1] == 't' || s[1] == 'T')
    &&& (s[2] == 't' || s[2] == 'T')
    &&& (s[3] == 'p' || s[3] == 'P')
}

/// The URL that `url` stands for on a page at `base`: an absolute `http…`
/// URL stands for itself, anything else is resolved against `base`.
pub open spec fn resolved_url(base: Seq<char>, url: Seq<char>) -> Option<Seq<char>> {
    if starts_with_http(url) {
        parsed_url(url)
    } else {
        joined_url(base, url)
    }
}

/// Resolve `url`, found on a page at `base_url`, to an absolute URL.
pub fn join_url(base_url: &str, url: &str) -> (r: Result<String, Error>)
    ensures
        r.is_ok() == resolved_url(base_url@, url@).is_some(),
        r.is_ok() ==> Some(r.unwrap()@) == resolved_url(base_url@, url@),
        r.is_err() ==> r == Err::<String, Error>(Error::UrlParseError),
{
    let n = url.unicode_len();
    let absolute = n >= 4 && {
        let c0 = url.get_char(0);
        let c1 = url.get_char(1);
        let c2 = url.get_char(2);
        let c3 = url.get_char(3);
        (c0 == 'h' || c0 == 'H') && (c1 == 't' || c1 == 'T') && (c2 == 't' || c2 == 'T') && (c3 == 'p'
            || c3 == 'P')
    };
    let res = if absolute {
        parse_url(url)
    } else {
        join_on(base_url, url)
    };
    match res {
        Ok(t) => Ok(t),
        Err(_) => Err(Error::UrlParseError),
    }
}

/// First `j >= i` where `s` holds `": "`, or -1.
pub open spec fn find_colon_space(s: Seq<char>, i: int) -> int
    decreases s.len() - i,
{
    if i < 0 || i + 1 >= s.len() {
        -1
    } else if s[i] == ':' && s[i + 1] == ' ' {
        i
    } else {
        find_colon_space(s, i + 1)
    }
}

/// First `j >= i` where `s` holds `':'`, or -1.
pub open spec fn find_char(s: Seq<char>, c: char, i: int) -> int
    decreases s.len() - i,
{
    if i < 0 || i >= s.len() {
        -1
    } else if s[i] == c {
        i
    } else {
        find_char(s, c, i + 1)
    }
}

/// A header line `Name: Value` split at the first `": "`, or else at the
/// first `':'`.
pub open spec fn header_split(s: Seq<char>) -> Option<(Seq<char>, Seq<char>)> {
    let a = find_colon_space(s, 0);
    if a >= 0 {
        Some((s.take(a), s.skip(a + 2)))
    } else {
        let b = find_char(s, ':', 0);
        if b >= 0 {
            Some((s.take(b), s.skip(b + 1)))
        } else {
            None
        }
    }
}

fn find_colon_space_from(s: &str, n: usize) -> (r: Option<usize>)
    requires
        n == s@.len(),
    ensures
        r.is_some() == (find_colon_space(s@, 0) >= 0),
        r.is_some() ==> r.unwrap() == find_colon_space(s@, 0),
{
    let mut i: usize = 0;
    while i < n && n - i > 1
        invariant
            n == s@.len(),
            find_colon_space(s@, 0) == find_colon_space(s@, i as int),
        decreases n - i,
    {
        if s.get_char(i) == ':' && s.get_char(i + 1) == ' ' {
            return Some(i);
        }
        i = i + 1;
    }
    proof {
        assert(find_colon_space(s@, i as int) == -1);
    }
    None
}

fn find_char_from(s: &str, n: usize, c: char) -> (r: Option<usize>)
    requires
        n == s@.len(),
    ensures
        r.is_some() == (find_char(s@, c, 0) >= 0),
        r.is_some() ==> r.unwrap() == find_char(s@, c, 0),
{
    let mut i: usize = 0;
    while i < n
        invariant
            n == s@.len(),
            find_char(s@, c, 0) == find_char(s@, c, i as int),
        decreases n - i,
    {
        if s.get_char(i) == c {
            return Some(i);
        }
        i = i + 1;
    }
    None
}

proof fn lemma_find_bounds(s: Seq<char>, c: char, i: int)
    requires
        i >= 0,
    ensures
        find_char(s, c, i) == -1 || (i <= find_char(s, c, i) < s.len() && s[find_char(s, c, i)] == c),
        find_colon_space(s, i) == -1 || (i <= find_colon_space(s, i) && find_colon_space(s, i) + 1 < s.len()),
    decreases s.len() - i,
{
    if i < s.len() {
        lemma_find_bounds(s, c, i + 1);
    }
}

/// Split a header line `Name: Value` into its name and value.
pub fn parse_header<'a>(raw: &'a str) -> (r: Result<(&'a str, &'a str), Error>)
    ensures
        r.is_ok() == header_split(raw@).is_some(),
        r.is_ok() ==> header_split(raw@) == Some((r.unwrap().0@, r.unwrap().1@)),
        r.is_err() ==> r == Err::<(&str, &str), Error>(Error::InvalidHeader(r->Err_0->InvalidHeader_0)) && (r->Err_0->InvalidHeader_0)@ == raw@,
{
    let n = raw.unicode_len();
    proof {
        lemma_find_bounds(raw@, ':', 0);
    }
    if let Some(index) = find_colon_space_from(raw, n) {
        let k = raw.substring_char(0, index);
        let v = raw.substring_char(index + 2, n);
        proof {
            assert(k@ =~= raw@.take(index as int));
            assert(v@ =~= raw@.skip(index + 2));
        }
        return Ok((k, v));
    }
    if let Some(index) = find_char_from(raw, n, ':') {
        let k = raw.substring_char(0, index);
        let v = raw.substring_char(index + 1, n);
        proof {
            assert(k@ =~= raw@.take(index as int));
            assert(v@ =~= raw@.skip(index + 1));
        }
        return Ok((k, v));
    }
    Err(Error::InvalidHeader(String::from_str(raw)))
}

/// Split every header line; the first line that does not split is the error.
pub fn parse_headers<'a>(raws: &Vec<&'a str>) -> (r: Result<Vec<(&'a str, &'a str)>, Error>)
    ensures
        r.is_ok() == forall|i: int| 0 <= i < raws@.len() ==> (#[trigger] header_split(raws@[i]@)).is_some(),
        r.is_ok() ==> r.unwrap()@.len() == raws@.len() && forall|i: int| 0 <= i < raws@.len()
            ==> header_split(raws@[i]@) == Some(((#[trigger] r.unwrap()@[i]).0@, r.unwrap()@[i].1@)),
        r.is_err() ==> (r->Err_0 is InvalidHeader) && exists|k: int| 0 <= k < raws@.len()
            && header_split((#[trigger] raws@[k])@).is_none()
            && (forall|j: int| 0 <= j < k ==> (#[trigger] header_split(raws@[j]@)).is_some())
            && (r->Err_0->InvalidHeader_0)@ == raws@[k]@,
{
    let mut headers: Vec<(&'a str, &'a str)> = Vec::new();
    let mut i: usize = 0;
    while i < raws.len()
        invariant
            i <= raws@.len(),
            headers@.len() == i,
            forall|j: int| 0 <= j < i ==> (#[trigger] header_split(raws@[j]@)).is_some(),
            forall|j: int| 0 <= j < i ==> header_split(raws@[j]@) == Some(((#[trigger] headers@[j]).0@, headers@[j].1@)),
        decreases raws@.len() - i,
    {
        let pair = match parse_header(raws[i]) {
            Ok(p) => p,
            Err(e) => {
                proof {
                    assert(header_split(raws@[i as int]@).is_none());
                }
                return Err(e);
            },
        };
        headers.push(pair);
        i = i + 1;
    }
    Ok(headers)
}

/// Whether one of `lowered_keys` equals `key`.
pub fn contains_lowered(lowered_keys: &Vec<String>, key: &str) -> (r: bool)
    ensures
        r == exists|i: int| 0 <= i < lowered_keys@.len() && (#[trigger] lowered_keys@[i])@ == key@,
{
    let mut i: usize = 0;
    while i < lowered_keys.len()
        invariant
            i <= lowered_keys@.len(),
            forall|j: int| 0 <= j < i ==> (#[trigger] lowered_keys@[j])@ != key@,
        decreases lowered_keys@.len() - i,
    {
        if string_eq_str(&lowered_keys[i], key) {
            return true;
        }
        i = i + 1;
    }
    false
}

fn string_eq_str(a: &String, b: &str) -> (r: bool)
    ensures
        r == (a@ == b@),
{
    let x = a.as_str();
    let n = x.unicode_len();
    let m = b.unicode_len();
    if n != m {
        return false;
    }
    let mut i: usize = 0;
    while i < n
        invariant
            n == x@.len(),
            m == b@.len(),
            n == m,
            x@ == a@,
            i <= n,
            forall|j: int| 0 <= j < i ==> x@[j] == b@[j],
        decreases n - i,
    {
        if x.get_char(i) != b.get_char(i) {
            return false;
        }
        i = i + 1;
    }
    assert(x@ =~= b@);
    true
}

/// The lower-cased names of `headers`.
pub fn lowered_names(headers: &Vec<(String, String)>) -> (r: Vec<String>)
    ensures
        r@.len() == headers@.len(),
        forall|i: int| 0 <= i < headers@.len() ==> (#[trigger] r@[i])@ == lower_of(headers@[i].0@),
{
    let mut out: Vec<String> = Vec::new();
    let mut i: usize = 0;
    while i < headers.len()
        invariant
            i <= headers@.len(),
            out@.len() == i,
            forall|j: int| 0 <= j < i ==> (#[trigger] out@[j])@ == lower_of(headers@[j].0@),
        decreases headers@.len() - i,
    {
        out.push(lowercase(headers[i].0.as_str()));
        i = i + 1;
    }
    out
}

/// Whether a header named `key` (lower case) is among `headers`, names
/// compared after lower-casing.
pub fn has_header(headers: &Vec<(String, String)>, key: &str) -> (r: bool)
    ensures
        r == exists|i: int| 0 <= i < headers@.len() && lower_of((#[trigger] headers@[i]).0@) == key@,
{
    let lowered = lowered_names(headers);
    let r = contains_lowered(&lowered, key);
    proof {
        if r {
            let i = choose|i: int| 0 <= i < lowered@.len() && (#[trigger] lowered@[i])@ == key@;
            assert(lower_of(headers@[i].0@) == key@);
        }
        if exists|i: int| 0 <= i < headers@.len() && lower_of((#[trigger] headers@[i]).0@) == key@ {
            let i = choose|i: int| 0 <= i < headers@.len() && lower_of((#[trigger] headers@[i]).0@) == key@;
            assert(lowered@[i]@ == key@);
        }
    }
    r
}

/// The default headers of the HTTP client: `headers`, and `accept: */*`
/// when no header is named `accept` in any case.
pub fn client_headers(headers: Vec<(String, String)>) -> (r: Vec<(String, String)>)
    ensures
        (exists|i: int| 0 <= i < headers@.len() && lower_of((#[trigger] headers@[i]).0@) == "accept"@) ==> r@ == headers@,
        !(exists|i: int| 0 <= i < headers@.len() && lower_of((#[trigger] headers@[i]).0@) == "accept"@) ==> r@.len() == headers@.len() + 1
            && r@.take(headers@.len() as int) == headers@ && r@.last().0@ == "accept"@ && r@.last().1@ == "*/*"@,
{
    let mut headers = headers;
    if !has_header(&headers, "accept") {
        let ghost before = headers@;
        headers.push((String::from_str("accept"), String::from_str("*/*")));
        proof {
            assert(headers@.take(before.len() as int) =~= before);
        }
    }
    headers
}

/// Whether an HTTP status code is a success (2xx); the error carries the code.
pub fn is_success(status: u16) -> (r: Result<(), Error>)
    ensures
        200 <= status <= 299 ==> r is Ok,
        !(200 <= status <= 299) ==> r == Err::<(), Error>(Error::Unsuccess(status)),
{
    if 200 <= status && status <= 299 {
        Ok(())
    } else {
        Err(Error::Unsuccess(status))
    }
}

/// What a probe answer says about the length of the resource.  An answer
/// that is not a success is the error `Unsuccess`.  Otherwise a
/// `Content-Range` of the form `…/N` is read first and gives
/// `RangeLength(N)` (an `N` that is not a number is an error); then a
/// `Content-Length` gives `DirectLength`, and no length at all `NoLength`.
pub fn classify_probe(status: u16, content_range: Option<&str>, content_length: Option<u64>) -> (r: Result<ContentLengthValue, Error>)
    ensures
        !(200 <= status <= 299) ==> r == Err::<ContentLengthValue, Error>(Error::Unsuccess(status)),
        200 <= status <= 299 ==> match content_range {
            Some(cr) if find_char(cr@, '/', 0) >= 0 => {
                let t = cr@.skip(find_char(cr@, '/', 0) + 1);
                &&& r.is_ok() == parses_u64(t)
                &&& r.is_ok() ==> r == Ok::<ContentLengthValue, Error>(ContentLengthValue::RangeLength(u64_value(t) as u64))
            },
            _ => r == Ok::<ContentLengthValue, Error>(match content_length {
                Some(n) => ContentLengthValue::DirectLength(n),
                None => ContentLengthValue::NoLength,
            }),
        },
{
    if !(200 <= status && status <= 299) {
        return Err(Error::Unsuccess(status));
    }
    {
        if let Some(cr) = content_range {
            let n = cr.unicode_len();
            proof {
                lemma_find_bounds(cr@, '/', 0);
            }
            if let Some(index) = find_char_from(cr, n, '/') {
                let t = cr.substring_char(index + 1, n);
                proof {
                    assert(t@ =~= cr@.skip(index + 1));
                }
                return match parse_u64(t) {
                    Some(v) => Ok(ContentLengthValue::RangeLength(v)),
                    None => Err(Error::IsNotNumber(String::from_str(t))),
                };
            }
        }
    }
    match content_length {
        Some(n) => Ok(ContentLengthValue::DirectLength(n)),
        None => Ok(ContentLengthValue::NoLength),
    }
}

/// One step of following redirects by hand.
#[derive(Debug, Clone, PartialEq, Eq)]
pub enum RedirectStep {
    /// The answer was a success: this is the final URL.
    Done(String),
    /// The answer was a redirection: ask this URL next.
    Follow(String),
}

/// Decide what to do with the answer to a request for `current`: a success
/// ends the chain at `current`; a redirection goes on at its `Location`,
/// resolved against `current`; a redirection without `Location` and any
/// other status are errors.
pub fn redirect_step(current: &str, status: u16, location: Option<&str>) -> (r: Result<RedirectStep, Error>)
    ensures
        200 <= status <= 299 ==> (r matches Ok(RedirectStep::Done(u)) && u@ == current@),
        300 <= status <= 399 && location.is_none() ==> (r matches Err(Error::NoLocation(u)) && u@ == current@),
        300 <= status <= 399 && location.is_some() ==> (r.is_ok() == resolved_url(current@, location.unwrap()@).is_some())
            && (r is Ok ==> (r matches Ok(RedirectStep::Follow(u)) && Some(u@) == resolved_url(current@, location.unwrap()@))),
        !(200 <= status <= 399) ==> r == Err::<RedirectStep, Error>(Error::Unsuccess(status)),
{
    if 200 <= status && status <= 299 {
        return Ok(RedirectStep::Done(String::from_str(current)));
    }
    if 300 <= status && status <= 399 {
        return match location {
            Some(l) => match join_url(current, l) {
                Ok(u) => Ok(RedirectStep::Follow(u)),
                Err(e) => Err(e),
            },
            None => Err(Error::NoLocation(String::from_str(current))),
        };
    }
    Err(Error::Unsuccess(status))
}

} // verus!
