use vstd::prelude::*;
use vstd::string::*;

use crate::error::Error;
use crate::liberal::{literal_value, parse_size_literal};
use crate::m3u8::Method;
use crate::net::{has_header, header_split, lower_of, parse_header};

verus! {

/// The default `User-Agent` header value.
pub const DEFAULT_USER_AGENT: &'static str = "aget/0.6.0";

/// What `str::to_uppercase` makes of `s`.
pub uninterp spec fn upper_of(s: Seq<char>) -> Seq<char>;

/// Relies on `str::to_uppercase`: the result depends on the characters alone.
#[verifier::external_body]
fn uppercase(s: &str) -> (r: String)
    ensures
        r@ == upper_of(s@),
{
    s.to_uppercase()
}

/// The kind of a download task.
#[derive(Debug, Clone, Copy, PartialEq, Eq, Structural)]
pub enum TaskType {
    HTTP,
    M3U8,
    BT,
}

/// The command line, as parsed.
#[derive(Debug, Clone)]
pub struct AgetCli {
    pub url: String,
    /// The method named with `-X`, if any.
    pub method: Option<String>,
    pub header: Option<Vec<String>>,
    pub data: Option<String>,
    pub insecure: bool,
    pub concurrency: Option<u64>,
    pub chunk_size: Option<String>,
    pub timeout: Option<u64>,
    pub dns_timeout: Option<u64>,
    pub retries: Option<u64>,
    pub retry_wait: Option<u64>,
    pub proxy: Option<String>,
    pub tp: String,
    pub bt_file_regex: Option<String>,
    pub seed: bool,
    pub bt_trackers: Option<Vec<String>>,
    pub bt_peer_connect_timeout: Option<u64>,
    pub bt_peer_read_write_timeout: Option<u64>,
    pub bt_peer_keep_alive_interval: Option<u64>,
    pub debug: bool,
    pub quiet: bool,
    pub out: Option<String>,
}

/// The configuration file, as parsed.
#[derive(Debug, Clone)]
pub struct Config {
    pub headers: Option<Vec<(String, String)>>,
    pub concurrency: Option<u64>,
    pub chunk_size: Option<String>,
    pub timeout: Option<u64>,
    pub dns_timeout: Option<u64>,
    pub retries: Option<u64>,
    pub retry_wait: Option<u64>,
}

impl Config {
    /// A configuration that sets nothing.
    pub fn new() -> (r: Config)
        ensures
            r.headers.is_none() && r.concurrency.is_none() && r.chunk_size.is_none() && r.timeout.is_none()
                && r.dns_timeout.is_none() && r.retries.is_none() && r.retry_wait.is_none(),
    {
        Config {
            headers: None,
            concurrency: None,
            chunk_size: None,
            timeout: None,
            dns_timeout: None,
            retries: None,
            retry_wait: None,
        }
    }
}

/// The request method named by `upper` (an upper-cased name): `GET` or
/// `POST`, anything else unsupported.
pub fn method_of(upper: &str) -> (r: Result<Method, Error>)
    ensures
        upper@ == "GET"@ ==> r == Ok::<Method, Error>(Method::GET),
        upper@ == "POST"@ ==> r == Ok::<Method, Error>(Method::POST),
        upper@ != "GET"@ && upper@ != "POST"@ ==> (r matches Err(Error::UnsupportedMethod(m)) && m@ == upper@),
{
    proof {
        reveal_strlit("GET");
        reveal_strlit("POST");
        assert("GET"@.len() == 3 && "POST"@.len() == 4);
        assert("GET"@ != "POST"@);
    }
    if str_is(upper, "GET") {
        Ok(Method::GET)
    } else if str_is(upper, "POST") {
        Ok(Method::POST)
    } else {
        Err(Error::UnsupportedMethod(String::from_str(upper)))
    }
}

fn str_is(a: &str, b: &str) -> (r: bool)
    ensures
        r == (a@ == b@),
{
    let n = a.unicode_len();
    if n != b.unicode_len() {
        return false;
    }
    let mut i: usize = 0;
    while i < n
        invariant
            n == a@.len(),
            n == b@.len(),
            i <= n,
            forall|j: int| 0 <= j < i ==> a@[j] == b@[j],
        decreases n - i,
    {
        if a.get_char(i) != b.get_char(i) {
            return false;
        }
        i = i + 1;
    }
    assert(a@ =~= b@);
    true
}

/// The views of a list of headers.
pub open spec fn header_views(list: Seq<(String, String)>) -> Seq<(Seq<char>, Seq<char>)> {
    Seq::new(list.len(), |i: int| (list[i].0@, list[i].1@))
}

/// A header named `key` (lower case) is in `list`, names compared lower-cased.
pub open spec fn has_key(list: Seq<(Seq<char>, Seq<char>)>, key: Seq<char>) -> bool {
    exists|i: int| 0 <= i < list.len() && lower_of((#[trigger] list[i]).0) == key
}

/// `list` followed by the headers of `extra` whose names are not there yet,
/// each checked against the list as it has grown so far.
pub open spec fn merge_missing(list: Seq<(Seq<char>, Seq<char>)>, extra: Seq<(Seq<char>, Seq<char>)>) -> Seq<(Seq<char>, Seq<char>)>
    decreases extra.len(),
{
    if extra.len() == 0 {
        list
    } else {
        let m = merge_missing(list, extra.drop_last());
        if has_key(m, extra.last().0) { m } else { m.push(extra.last()) }
    }
}

/// Add to `headers` the headers of `extra` whose names are not there yet.
pub fn add_missing_headers(headers: &mut Vec<(String, String)>, extra: &Vec<(String, String)>)
    ensures
        header_views(final(headers)@) == merge_missing(header_views(old(headers)@), header_views(extra@)),
{
    let mut i: usize = 0;
    while i < extra.len()
        invariant
            i <= extra@.len(),
            header_views(headers@) == merge_missing(header_views(old(headers)@), header_views(extra@).take(i as int)),
        decreases extra@.len() - i,
    {
        let ghost before = headers@;
        let key = extra[i].0.as_str();
        let present = has_header(headers, key);
        proof {
            let ev = header_views(extra@);
            assert(ev.take(i + 1).drop_last() =~= ev.take(i as int));
            assert(ev.take(i + 1).last() == ev[i as int]);
            let hv = header_views(before);
            assert(present == has_key(hv, extra@[i as int].0@)) by {
                if present {
                    let j = choose|j: int| 0 <= j < before.len() && lower_of((#[trigger] before[j]).0@) == key@;
                    assert(hv[j].0 == before[j].0@);
                }
                if has_key(hv, extra@[i as int].0@) {
                    let j = choose|j: int| 0 <= j < hv.len() && lower_of((#[trigger] hv[j]).0) == extra@[i as int].0@;
                    assert(hv[j].0 == before[j].0@);
                }
            }
        }
        if !present {
            let k = extra[i].0.clone();
            let v = extra[i].1.clone();
            headers.push((k, v));
            proof {
                assert(header_views(headers@) =~= header_views(before).push(header_views(extra@)[i as int]));
            }
        }
        i = i + 1;
    }
    proof {
        assert(header_views(extra@).take(extra@.len() as int) =~= header_views(extra@));
    }
}

/// The default headers: `user-agent`.
pub fn default_headers() -> (r: Vec<(String, String)>)
    ensures
        header_views(r@) == seq![("user-agent"@, DEFAULT_USER_AGENT@)],
{
    let mut v: Vec<(String, String)> = Vec::new();
    v.push((String::from_str("user-agent"), String::from_str(DEFAULT_USER_AGENT)));
    proof {
        assert(header_views(v@) =~= seq![("user-agent"@, DEFAULT_USER_AGENT@)]);
    }
    v
}

/// The header lines of the command line.
pub open spec fn header_lines(cli: AgetCli) -> Seq<String> {
    if cli.header.is_some() { cli.header.unwrap()@ } else { seq![] }
}

/// The headers of the configuration file.
pub open spec fn config_headers(config: Config) -> Seq<(Seq<char>, Seq<char>)> {
    if config.headers.is_some() { header_views(config.headers.unwrap()@) } else { seq![] }
}

/// The header lines split into names and values.
pub open spec fn split_lines(lines: Seq<String>) -> Seq<(Seq<char>, Seq<char>)> {
    Seq::new(lines.len(), |i: int| header_split(lines[i]@).unwrap())
}

/// The part of a URL before its query or fragment.
pub open spec fn before_query(s: Seq<char>) -> Seq<char>
    decreases s.len(),
{
    if s.len() == 0 {
        s
    } else if before_query(s.drop_last()).len() < s.len() - 1 {
        before_query(s.drop_last())
    } else if s.last() == '?' || s.last() == '#' {
        s.drop_last()
    } else {
        s
    }
}

pub open spec fn ascii_lower(c: char) -> char {
    if 'A' <= c <= 'Z' { ((c as u8) + 32) as char } else { c }
}

/// `s` ends with `suffix` (lower case), letters compared in any case.
pub open spec fn ends_with_ci(s: Seq<char>, suffix: Seq<char>) -> bool {
    s.len() >= suffix.len() && forall|i: int| 0 <= i < suffix.len() ==> ascii_lower(#[trigger] s[s.len() - suffix.len() + i]) == suffix[i]
}

/// `s` starts with `prefix` (lower case), letters compared in any case.
pub open spec fn starts_with_ci(s: Seq<char>, prefix: Seq<char>) -> bool {
    s.len() >= prefix.len() && forall|i: int| 0 <= i < prefix.len() ==> ascii_lower(#[trigger] s[i]) == prefix[i]
}

/// The task type that `--type auto` picks for `url`: a magnet link or a
/// `.torrent` path is BitTorrent, a `.m3u8` path is HLS, anything else HTTP.
pub open spec fn auto_task_type(url: Seq<char>) -> TaskType {
    let path = before_query(url);
    if starts_with_ci(url, "magnet:"@) || ends_with_ci(path, ".torrent"@) {
        TaskType::BT
    } else if ends_with_ci(path, ".m3u8"@) {
        TaskType::M3U8
    } else {
        TaskType::HTTP
    }
}

fn lower_ascii(c: char) -> (r: char)
    ensures
        r == ascii_lower(c),
{
    if 'A' <= c && c <= 'Z' {
        ((c as u8) + 32) as char
    } else {
        c
    }
}

fn ends_with_ci_exec(s: &str, n: usize, suffix: &str) -> (r: bool)
    requires
        n <= s@.len(),
    ensures
        r == ends_with_ci(s@.take(n as int), suffix@),
{
    let m = suffix.unicode_len();
    if n < m {
        return false;
    }
    let mut i: usize = 0;
    while i < m
        invariant
            m == suffix@.len(),
            n <= s@.len(),
            m <= n,
            i <= m,
            forall|j: int| 0 <= j < i ==> ascii_lower(#[trigger] s@.take(n as int)[n - m + j]) == suffix@[j],
        decreases m - i,
    {
        if lower_ascii(s.get_char(n - m + i)) != suffix.get_char(i) {
            assert(s@.take(n as int)[n - m + i] == s@[n - m + i]);
            return false;
        }
        i = i + 1;
    }
    true
}

fn starts_with_ci_exec(s: &str, prefix: &str) -> (r: bool)
    ensures
        r == starts_with_ci(s@, prefix@),
{
    let n = s.unicode_len();
    let m = prefix.unicode_len();
    if n < m {
        return false;
    }
    let mut i: usize = 0;
    while i < m
        invariant
            m == prefix@.len(),
            n == s@.len(),
            m <= n,
            i <= m,
            forall|j: int| 0 <= j < i ==> ascii_lower(#[trigger] s@[j]) == prefix@[j],
        decreases m - i,
    {
        if lower_ascii(s.get_char(i)) != prefix.get_char(i) {
            return false;
        }
        i = i + 1;
    }
    true
}

proof fn lemma_before_query_prefix(s: Seq<char>)
    ensures
        before_query(s).len() <= s.len(),
        before_query(s) == s.take(before_query(s).len() as int),
    decreases s.len(),
{
    if s.len() > 0 {
        lemma_before_query_prefix(s.drop_last());
        assert(s.drop_last().take(before_query(s.drop_last()).len() as int) =~= s.take(before_query(s.drop_last()).len() as int));
        assert(s.take(s.len() as int) =~= s);
        assert(s.drop_last() =~= s.take(s.len() - 1));
    }
}

/// The length of the part of `url` before its query or fragment.
fn path_end(url: &str) -> (r: usize)
    ensures
        r <= url@.len(),
        before_query(url@) == url@.take(r as int),
{
    let n = url.unicode_len();
    let mut i: usize = 0;
    while i < n
        invariant
            n == url@.len(),
            i <= n,
            before_query(url@.take(i as int)) == url@.take(i as int),
        decreases n - i,
    {
        let c = url.get_char(i);
        proof {
            assert(url@.take(i + 1).drop_last() =~= url@.take(i as int));
            assert(url@.take(i + 1).last() == c);
        }
        if c == '?' || c == '#' {
            proof {
                lemma_before_query_tail(url@, i as int);
            }
            return i;
        }
        i = i + 1;
    }
    proof {
        assert(url@.take(n as int) =~= url@);
    }
    n
}

proof fn lemma_before_query_tail(s: Seq<char>, i: int)
    requires
        0 <= i < s.len(),
        before_query(s.take(i)) == s.take(i),
        s[i] == '?' || s[i] == '#',
    ensures
        before_query(s) == s.take(i),
    decreases s.len() - i,
{
    assert(s.take(i + 1).drop_last() =~= s.take(i));
    assert(before_query(s.take(i + 1)) == s.take(i));
    lemma_before_query_stays(s, i + 1, i);
}

proof fn lemma_before_query_stays(s: Seq<char>, j: int, i: int)
    requires
        0 <= i < j <= s.len(),
        before_query(s.take(j)) == s.take(i),
    ensures
        before_query(s) == s.take(i),
    decreases s.len() - j,
{
    if j < s.len() {
        assert(s.take(j + 1).drop_last() =~= s.take(j));
        assert(before_query(s.take(j + 1)) == s.take(i));
        lemma_before_query_stays(s, j + 1, i);
    } else {
        assert(s.take(j) =~= s);
    }
}

/// The command line and the configuration file, resolved into the
/// settings of a task: the command line wins, then the configuration file,
/// then the defaults.
pub struct CmdArgs {
    pub cli: AgetCli,
    pub config: Config,
}

impl CmdArgs {
    pub fn new(cli: AgetCli, config: Config) -> (r: CmdArgs)
        ensures
            r.cli == cli,
            r.config == config,
    {
        CmdArgs { cli, config }
    }

    /// The URL as given on the command line.
    pub fn url(&self) -> (r: &String)
        ensures
            r == &self.cli.url,
    {
        &self.cli.url
    }

    /// The request method: the one named on the command line, in any case;
    /// when none is named, `POST` if there is data and `GET` otherwise.
    pub fn method(&self) -> (r: Result<Method, Error>)
        ensures
            self.cli.method.is_none() && self.cli.data.is_some() ==> r == Ok::<Method, Error>(Method::POST),
            self.cli.method.is_none() && self.cli.data.is_none() ==> r == Ok::<Method, Error>(Method::GET),
            self.cli.method.is_some() && upper_of(self.cli.method.unwrap()@) == "GET"@ ==> r == Ok::<Method, Error>(Method::GET),
            self.cli.method.is_some() && upper_of(self.cli.method.unwrap()@) == "POST"@ ==> r == Ok::<Method, Error>(Method::POST),
            self.cli.method.is_some() && upper_of(self.cli.method.unwrap()@) != "GET"@ && upper_of(self.cli.method.unwrap()@) != "POST"@
                ==> r is Err,
    {
        match &self.cli.method {
            Some(m) => {
                let upper = uppercase(m.as_str());
                method_of(upper.as_str())
            },
            None => if self.cli.data.is_some() {
                Ok(Method::POST)
            } else {
                Ok(Method::GET)
            },
        }
    }

    /// The data of a `POST` request.
    pub fn data(&self) -> (r: &Option<String>)
        ensures
            r == &self.cli.data,
    {
        &self.cli.data
    }

    /// The proxy given on the command line.
    pub fn proxy(&self) -> (r: &Option<String>)
        ensures
            r == &self.cli.proxy,
    {
        &self.cli.proxy
    }

    /// The request headers: those of the command line, then those of the
    /// configuration file and the default ones whose names are not there yet
    /// (names compared lower-cased).  A header line that does not split is
    /// an error.
    pub fn headers(&self) -> (r: Result<Vec<(String, String)>, Error>)
        ensures
            ({
                let lines = header_lines(self.cli);
                let config = config_headers(self.config);
                &&& r.is_ok() == forall|i: int| 0 <= i < lines.len() ==> (#[trigger] header_split(lines[i]@)).is_some()
                &&& r.is_ok() ==> header_views(r.unwrap()@) == merge_missing(
                    merge_missing(split_lines(lines), config),
                    seq![("user-agent"@, DEFAULT_USER_AGENT@)],
                )
            }),
    {
        let mut headers: Vec<(String, String)> = Vec::new();
        let ghost lines = header_lines(self.cli);
        match &self.cli.header {
            Some(v) => {
                let mut i: usize = 0;
                while i < v.len()
                    invariant
                        lines == v@,
                        lines == header_lines(self.cli),
                        i <= v@.len(),
                        header_views(headers@) =~= split_lines(v@).take(i as int),
                        forall|j: int| 0 <= j < i ==> (#[trigger] header_split(v@[j]@)).is_some(),
                    decreases v@.len() - i,
                {
                    let (k, val) = match parse_header(v[i].as_str()) {
                        Ok(p) => p,
                        Err(e) => {
                            proof {
                                assert(header_split(lines[i as int]@).is_none());
                                assert(!(forall|j: int| 0 <= j < lines.len() ==> (#[trigger] header_split(lines[j]@)).is_some()));
                            }
                            return Err(e);
                        },
                    };
                    let ghost before = headers@;
                    headers.push((String::from_str(k), String::from_str(val)));
                    proof {
                        assert(split_lines(v@)[i as int] == (k@, val@));
                        assert(header_views(headers@) =~= header_views(before).push((k@, val@)));
                        assert(split_lines(v@).take(i + 1) =~= split_lines(v@).take(i as int).push((k@, val@)));
                    }
                    i = i + 1;
                }
                proof {
                    assert(split_lines(v@).take(v@.len() as int) =~= split_lines(v@));
                }
            },
            None => {
                proof {
                    assert(header_views(headers@) =~= split_lines(lines));
                }
            },
        }
        match &self.config.headers {
            Some(c) => add_missing_headers(&mut headers, c),
            None => {},
        }
        let defaults = default_headers();
        add_missing_headers(&mut headers, &defaults);
        Ok(headers)
    }

    /// The task type: named on the command line, or picked from the URL.
    pub fn task_type(&self) -> (r: Result<TaskType, Error>)
        ensures
            self.cli.tp@ == "auto"@ ==> r == Ok::<TaskType, Error>(auto_task_type(self.cli.url@)),
            self.cli.tp@ == "http"@ ==> r == Ok::<TaskType, Error>(TaskType::HTTP),
            self.cli.tp@ == "m3u8"@ ==> r == Ok::<TaskType, Error>(TaskType::M3U8),
            self.cli.tp@ == "bt"@ ==> r == Ok::<TaskType, Error>(TaskType::BT),
            self.cli.tp@ != "auto"@ && self.cli.tp@ != "http"@ && self.cli.tp@ != "m3u8"@ && self.cli.tp@ != "bt"@ ==> r is Err,
    {
        let tp = self.cli.tp.as_str();
        proof {
            reveal_strlit("auto");
            reveal_strlit("http");
            reveal_strlit("m3u8");
            reveal_strlit("bt");
            assert("auto"@[0] == 'a' && "http"@[0] == 'h' && "m3u8"@[0] == 'm' && "bt"@[0] == 'b');
            assert("auto"@ != "http"@ && "auto"@ != "m3u8"@ && "auto"@ != "bt"@ && "http"@ != "m3u8"@ && "http"@ != "bt"@ && "m3u8"@ != "bt"@);
        }
        if str_is(tp, "auto") {
            let url = self.cli.url.as_str();
            let end = path_end(url);
            proof {
                lemma_before_query_prefix(url@);
            }
            if starts_with_ci_exec(url, "magnet:") || ends_with_ci_exec(url, end, ".torrent") {
                Ok(TaskType::BT)
            } else if ends_with_ci_exec(url, end, ".m3u8") {
                Ok(TaskType::M3U8)
            } else {
                Ok(TaskType::HTTP)
            }
        } else if str_is(tp, "http") {
            Ok(TaskType::HTTP)
        } else if str_is(tp, "m3u8") {
            Ok(TaskType::M3U8)
        } else if str_is(tp, "bt") {
            Ok(TaskType::BT)
        } else {
            Err(Error::UnsupportedTask(self.cli.tp.clone()))
        }
    }

    /// Seconds a read may stay idle: command line, configuration, then 30 for
    /// HLS and 60 otherwise.
    pub fn timeout(&self, task: TaskType) -> (r: u64)
        ensures
            r == (match self.cli.timeout {
                Some(t) => t,
                None => match self.config.timeout {
                    Some(t) => t,
                    None => if task == TaskType::M3U8 { 30 } else { 60 },
                },
            }),
    {
        match self.cli.timeout {
            Some(t) => t,
            None => match self.config.timeout {
                Some(t) => t,
                None => if task == TaskType::M3U8 { 30 } else { 60 },
            },
        }
    }

    /// Seconds to resolve and connect: command line, configuration, then 10.
    pub fn dns_timeout(&self) -> (r: u64)
        ensures
            r == (match self.cli.dns_timeout {
                Some(t) => t,
                None => match self.config.dns_timeout {
                    Some(t) => t,
                    None => 10,
                },
            }),
    {
        match self.cli.dns_timeout {
            Some(t) => t,
            None => match self.config.dns_timeout {
                Some(t) => t,
                None => 10,
            },
        }
    }

    /// Seconds a connection is kept alive: 10 for HLS, 60 otherwise.
    pub fn keep_alive(&self, task: TaskType) -> (r: u64)
        ensures
            r == (if task == TaskType::M3U8 { 10u64 } else { 60u64 }),
    {
        if task == TaskType::M3U8 {
            10
        } else {
            60
        }
    }

    /// How many requests run at once: command line, configuration, then 10.
    pub fn concurrency(&self) -> (r: u64)
        ensures
            r == (match self.cli.concurrency {
                Some(c) => c,
                None => match self.config.concurrency {
                    Some(c) => c,
                    None => 10,
                },
            }),
    {
        match self.cli.concurrency {
            Some(c) => c,
            None => match self.config.concurrency {
                Some(c) => c,
                None => 10,
            },
        }
    }

    /// The chunk size of an HTTP task: command line, configuration, then
    /// 50 MiB; a size that does not parse is an error.
    pub fn chunk_size(&self) -> (r: Result<u64, Error>)
        ensures
            match self.cli.chunk_size {
                Some(s) => r.is_ok() == literal_value(s@, 5).is_some() && (r.is_ok() ==> r.unwrap() == literal_value(s@, 5).unwrap()),
                None => match self.config.chunk_size {
                    Some(s) => r.is_ok() == literal_value(s@, 5).is_some() && (r.is_ok() ==> r.unwrap() == literal_value(s@, 5).unwrap()),
                    None => r == Ok::<u64, Error>(52428800u64),
                },
            },
    {
        match &self.cli.chunk_size {
            Some(s) => parse_size_literal(s.as_str(), 5),
            None => match &self.config.chunk_size {
                Some(s) => parse_size_literal(s.as_str(), 5),
                None => Ok(50 * 1024 * 1024),
            },
        }
    }

    /// How many times a failed task is run again: command line,
    /// configuration, then 5.
    pub fn retries(&self) -> (r: u64)
        ensures
            r == (match self.cli.retries {
                Some(c) => c,
                None => match self.config.retries {
                    Some(c) => c,
                    None => 5,
                },
            }),
    {
        match self.cli.retries {
            Some(c) => c,
            None => match self.config.retries {
                Some(c) => c,
                None => 5,
            },
        }
    }

    /// Seconds between runs: command line, configuration, then 0.
    pub fn retry_wait(&self) -> (r: u64)
        ensures
            r == (match self.cli.retry_wait {
                Some(c) => c,
                None => match self.config.retry_wait {
                    Some(c) => c,
                    None => 0,
                },
            }),
    {
        match self.cli.retry_wait {
            Some(c) => c,
            None => match self.config.retry_wait {
                Some(c) => c,
                None => 0,
            },
        }
    }

    pub fn debug(&self) -> (r: bool)
        ensures
            r == self.cli.debug,
    {
        self.cli.debug
    }

    pub fn quiet(&self) -> (r: bool)
        ensures
            r == self.cli.quiet,
    {
        self.cli.quiet
    }
}

} // verus!
