use aget::args::{AgetCli, CmdArgs, Config, TaskType, DEFAULT_USER_AGENT};
use aget::error::Error;
use aget::liberal::{parse_u64, LiteralSize, ParseLiteralNumber};
use aget::m3u8::Method;
use aget::net::{
    classify_probe, client_headers, has_header, is_success, join_url, parse_header, parse_headers, redirect_step,
    RedirectStep,
};
use aget::plan::ContentLengthValue;
use aget::show::{bars, du_bars};

fn cli(url: &str) -> AgetCli {
    AgetCli {
        url: url.to_string(),
        method: None,
        header: None,
        data: None,
        insecure: false,
        concurrency: None,
        chunk_size: None,
        timeout: None,
        dns_timeout: None,
        retries: None,
        retry_wait: None,
        proxy: None,
        tp: "auto".to_string(),
        bt_file_regex: None,
        seed: false,
        bt_trackers: None,
        bt_peer_connect_timeout: None,
        bt_peer_read_write_timeout: None,
        bt_peer_keep_alive_interval: None,
        debug: false,
        quiet: false,
        out: None,
    }
}

fn pairs(v: &[(&str, &str)]) -> Vec<(String, String)> {
    v.iter().map(|(k, v)| (k.to_string(), v.to_string())).collect()
}

#[test]
fn size_literals() {
    assert_eq!("100k".literal_number().unwrap(), 100 * 1024);
    assert_eq!("3B".literal_number().unwrap(), 3);
    assert_eq!("2m".literal_number().unwrap(), 2 * 1024 * 1024);
    assert_eq!("5G".literal_number().unwrap(), 5 * 1024 * 1024 * 1024);
    assert_eq!("7t".literal_number().unwrap(), 7 * 1024u64.pow(4));
    assert_eq!("12345".literal_number().unwrap(), 12345);
    assert_eq!("1x".literal_number().unwrap(), 1024u64.pow(5));
    assert_eq!("1m".literal_size().unwrap(), 1024 * 1024);
    assert_eq!("1t".literal_size().unwrap(), 1024u64.pow(4));
    assert!(matches!("16777216T".literal_number(), Err(Error::IsNotNumber(_))));
    assert_eq!("16777215T".literal_number().unwrap(), 16777215 * 1024u64.pow(4));
    assert!(matches!("".literal_number(), Err(Error::IsNotNumber(_))));
    assert!(matches!("k".literal_number(), Err(Error::IsNotNumber(_))));
    assert!(matches!("1.5k".literal_number(), Err(Error::IsNotNumber(_))));
}

#[test]
fn size_law_on_values() {
    let units = ["B", "K", "M", "G", "T"];
    for n in [0u64, 1, 9, 500, 4095] {
        for (k, u) in units.iter().enumerate() {
            let expect = n * 1024u64.pow(k as u32);
            assert_eq!(format!("{}{}", n, u).as_str().literal_number().unwrap(), expect);
            assert_eq!(format!("{}{}", n, u.to_lowercase()).as_str().literal_number().unwrap(), expect);
        }
    }
}

#[test]
fn decimal_numbers() {
    assert_eq!(parse_u64("18446744073709551615"), Some(u64::MAX));
    assert_eq!(parse_u64("18446744073709551616"), None);
    assert_eq!(parse_u64("+42"), Some(42));
    assert_eq!(parse_u64("+"), None);
    assert_eq!(parse_u64("-1"), None);
    assert_eq!(parse_u64(""), None);
}

#[test]
fn header_lines() {
    assert_eq!(parse_header("User-Agent: aget").unwrap(), ("User-Agent", "aget"));
    assert_eq!(parse_header("a:b: c").unwrap(), ("a:b", "c"));
    assert_eq!(parse_header("k:v").unwrap(), ("k", "v"));
    assert_eq!(parse_header("novalue"), Err(Error::InvalidHeader("novalue".to_string())));
    assert_eq!(parse_headers(&vec!["a: 1", "b:2"]).unwrap(), vec![("a", "1"), ("b", "2")]);
    assert_eq!(parse_headers(&vec!["a: 1", "bad", "worse"]), Err(Error::InvalidHeader("bad".to_string())));
}

#[test]
fn accept_header_default() {
    let h = client_headers(pairs(&[("X-A", "1")]));
    assert_eq!(h, pairs(&[("X-A", "1"), ("accept", "*/*")]));
    let h = client_headers(pairs(&[("ACCEPT", "text/html")]));
    assert_eq!(h, pairs(&[("ACCEPT", "text/html")]));
    assert!(has_header(&pairs(&[("Accept", "x")]), "accept"));
}

#[test]
fn merged_headers() {
    let mut c = cli("http://h/f");
    c.header = Some(vec!["User-AGENT: mine".to_string(), "X-Token: 1".to_string()]);
    let mut config = Config::new();
    config.headers = Some(pairs(&[("x-token", "2"), ("cookie", "a=b")]));
    let args = CmdArgs::new(c, config);
    assert_eq!(args.headers().unwrap(), pairs(&[("User-AGENT", "mine"), ("X-Token", "1"), ("cookie", "a=b")]));
    let args = CmdArgs::new(cli("http://h/f"), Config::new());
    assert_eq!(args.headers().unwrap(), pairs(&[("user-agent", DEFAULT_USER_AGENT)]));
    let mut bad = cli("http://h/f");
    bad.header = Some(vec!["nocolon".to_string()]);
    assert!(matches!(CmdArgs::new(bad, Config::new()).headers(), Err(Error::InvalidHeader(_))));
}

#[test]
fn methods_and_tasks() {
    let mut c = cli("http://h/video/list.M3U8?token=1");
    assert_eq!(CmdArgs::new(c.clone(), Config::new()).method().unwrap(), Method::GET);
    c.method = Some("post".to_string());
    let args = CmdArgs::new(c.clone(), Config::new());
    assert_eq!(args.method().unwrap(), Method::POST);
    assert_eq!(args.task_type().unwrap(), TaskType::M3U8);
    c.method = Some("put".to_string());
    assert_eq!(CmdArgs::new(c.clone(), Config::new()).method(), Err(Error::UnsupportedMethod("PUT".to_string())));
    c.data = Some("a=b".to_string());
    c.method = None;
    assert_eq!(CmdArgs::new(c.clone(), Config::new()).method().unwrap(), Method::POST);
    c.method = Some("get".to_string());
    assert_eq!(CmdArgs::new(c.clone(), Config::new()).method().unwrap(), Method::GET);
    assert_eq!(CmdArgs::new(cli("magnet:?xt=urn:btih:abc"), Config::new()).task_type().unwrap(), TaskType::BT);
    assert_eq!(CmdArgs::new(cli("http://h/a.torrent"), Config::new()).task_type().unwrap(), TaskType::BT);
    assert_eq!(CmdArgs::new(cli("http://h/a.bin"), Config::new()).task_type().unwrap(), TaskType::HTTP);
    let mut t = cli("http://h/a.bin");
    t.tp = "ftp".to_string();
    assert!(matches!(CmdArgs::new(t, Config::new()).task_type(), Err(Error::UnsupportedTask(_))));
}

#[test]
fn settings_precedence() {
    let mut c = cli("http://h/f");
    c.concurrency = Some(4);
    c.chunk_size = Some("1m".to_string());
    let mut config = Config::new();
    config.concurrency = Some(8);
    config.retries = Some(2);
    config.timeout = Some(15);
    let args = CmdArgs::new(c, config);
    assert_eq!(args.concurrency(), 4);
    assert_eq!(args.chunk_size().unwrap(), 1024 * 1024);
    assert_eq!(args.retries(), 2);
    assert_eq!(args.retry_wait(), 0);
    assert_eq!(args.timeout(TaskType::HTTP), 15);
    assert_eq!(args.dns_timeout(), 10);
    let d = CmdArgs::new(cli("http://h/f"), Config::new());
    assert_eq!(d.chunk_size().unwrap(), 50 * 1024 * 1024);
    assert_eq!(d.timeout(TaskType::M3U8), 30);
    assert_eq!(d.timeout(TaskType::HTTP), 60);
    assert_eq!(d.keep_alive(TaskType::M3U8), 10);
    assert_eq!(d.concurrency(), 10);
    assert_eq!(d.retries(), 5);
}

#[test]
fn url_joining() {
    assert_eq!(join_url("http://a.com/x/y.m3u8", "z.ts").unwrap(), "http://a.com/x/z.ts");
    assert_eq!(join_url("http://a.com/x/y.m3u8", "/z.ts").unwrap(), "http://a.com/z.ts");
    assert_eq!(join_url("http://a.com/x/", "HTTPS://b.org/q").unwrap(), "https://b.org/q");
    assert_eq!(join_url("nope", "z.ts"), Err(Error::UrlParseError));
    assert_eq!(join_url("http://a.com/", "http://[bad"), Err(Error::UrlParseError));
}

#[test]
fn probe_classification() {
    assert_eq!(classify_probe(206, Some("bytes 0-1/10485760"), Some(2)).unwrap(), ContentLengthValue::RangeLength(10485760));
    assert_eq!(classify_probe(200, None, Some(1048576)).unwrap(), ContentLengthValue::DirectLength(1048576));
    assert_eq!(classify_probe(200, Some("bytes 0-1/10"), Some(10)).unwrap(), ContentLengthValue::RangeLength(10));
    assert_eq!(classify_probe(206, Some("bytes 0-1"), Some(2)).unwrap(), ContentLengthValue::DirectLength(2));
    assert_eq!(classify_probe(404, Some("bytes 0-1/10"), None), Err(Error::Unsuccess(404)));
    assert_eq!(classify_probe(200, None, None).unwrap(), ContentLengthValue::NoLength);
    assert!(matches!(classify_probe(206, Some("bytes 0-1/*"), None), Err(Error::IsNotNumber(_))));
    assert_eq!(is_success(204), Ok(()));
    assert_eq!(is_success(404), Err(Error::Unsuccess(404)));
}

#[test]
fn redirect_steps() {
    assert_eq!(redirect_step("http://a.com/f", 200, None).unwrap(), RedirectStep::Done("http://a.com/f".to_string()));
    assert_eq!(redirect_step("http://a.com/d/f", 302, Some("../g")).unwrap(), RedirectStep::Follow("http://a.com/g".to_string()));
    assert_eq!(redirect_step("http://a.com/f", 301, None), Err(Error::NoLocation("http://a.com/f".to_string())));
    assert_eq!(redirect_step("http://a.com/f", 500, None), Err(Error::Unsuccess(500)));
}

#[test]
fn progress_bar_pieces() {
    assert_eq!(bars(), ("━", "╸", "╺"));
    assert_eq!(du_bars(3, 2), ("━━╸".to_string(), "╺━".to_string()));
    assert_eq!(du_bars(2, 0), ("━━".to_string(), "".to_string()));
    assert_eq!(du_bars(0, 1), ("".to_string(), "╺".to_string()));
}
