use aes::cipher::{block_padding::Pkcs7, BlockEncryptMut, KeyIvInit};

use aget::error::Error;
use aget::m3u8::{
    decode_segment, decrypt_aes128, default_iv, find_key, key_from_bytes, plan_m3u8, plan_segments, playlist_step,
    KeyTag, M3u8Segment, MediaEntry, Method, PlaylistStep, SegmentOrder, SegmentProgress,
};
use aget::record::ByteArrayRecorder;

const KEY: [u8; 16] = *b"0123456789abcdef";

fn encrypt(key: &[u8; 16], iv: &[u8; 16], data: &[u8]) -> Vec<u8> {
    cbc::Encryptor::<aes::Aes128>::new(key.into(), iv.into()).encrypt_padded_vec_mut::<Pkcs7>(data)
}

fn segment(index: u64, key: Option<[u8; 16]>, iv: Option<[u8; 16]>) -> M3u8Segment {
    M3u8Segment { index, method: Method::GET, url: format!("http://h/s{}.ts", index), data: None, key, iv }
}

fn segments(n: u64) -> Vec<M3u8Segment> {
    (0..n).map(|i| segment(i, None, None)).collect()
}

#[test]
fn default_iv_layout() {
    let iv = default_iv(5);
    assert_eq!(iv, [0, 0, 0, 0, 0, 0, 0, 0, 0, 0, 0, 0, 0, 0, 0, 5]);
    let iv = default_iv(0x0102_0304);
    assert_eq!(&iv[12..], &[1, 2, 3, 4]);
    assert!(iv[..12].iter().all(|b| *b == 0));
    assert_eq!(default_iv((1u64 << 32) + 7)[15], 7);
}

#[test]
fn playlist_with_aes_keys() {
    let text = "#EXTM3U\n#EXT-X-TARGETDURATION:10\n#EXT-X-MEDIA-SEQUENCE:3\n#EXT-X-KEY:METHOD=AES-128,URI=\"key.bin\"\n#EXTINF:10,\na.ts\n#EXTINF:10,\nb.ts\n#EXT-X-KEY:METHOD=AES-128,URI=\"k2.bin\",IV=0x000102030405060708090a0b0c0d0e0f\n#EXTINF:10,\nhttp://cdn.example/c.ts\n#EXT-X-ENDLIST";
    let step = playlist_step("http://example.com/live/index.m3u8", text.as_bytes().to_vec(), 7).unwrap();
    let plans = match step {
        PlaylistStep::Segments(v) => v,
        _ => panic!("media playlist expected"),
    };
    assert_eq!(plans.len(), 3);
    assert_eq!(plans[0].index, 7);
    assert_eq!(plans[0].url, "http://example.com/live/a.ts");
    assert_eq!(plans[0].key_url.as_deref(), Some("http://example.com/live/key.bin"));
    assert_eq!(plans[0].iv, Some(default_iv(3)));
    assert_eq!(plans[1].key_url.as_deref(), Some("http://example.com/live/key.bin"));
    assert_eq!(plans[1].iv, Some(default_iv(4)));
    assert_eq!(plans[2].url, "http://cdn.example/c.ts");
    assert_eq!(plans[2].key_url.as_deref(), Some("http://example.com/live/k2.bin"));
    assert_eq!(plans[2].iv, Some([0, 1, 2, 3, 4, 5, 6, 7, 8, 9, 10, 11, 12, 13, 14, 15]));
}

#[test]
fn master_playlist_variants() {
    let text = "#EXTM3U\n#EXT-X-STREAM-INF:BANDWIDTH=1280000\nlow/index.m3u8\n#EXT-X-STREAM-INF:BANDWIDTH=2560000\nhttp://other.example/hi.m3u8";
    let step = playlist_step("http://example.com/master.m3u8", text.as_bytes().to_vec(), 0).unwrap();
    match step {
        PlaylistStep::Variants(v) => {
            assert_eq!(v, vec!["http://other.example/hi.m3u8".to_string(), "http://example.com/low/index.m3u8".to_string()]);
        },
        _ => panic!("master playlist expected"),
    }
}

#[test]
fn unparsable_playlist() {
    let r = playlist_step("http://example.com/x.m3u8", b"not a playlist".to_vec(), 0);
    assert!(matches!(r, Err(Error::M3U8ParseFail)));
}

#[test]
fn plan_segments_without_key() {
    let entries = vec![
        MediaEntry { uri: "a.ts".to_string(), key: None },
        MediaEntry { uri: "b.ts".to_string(), key: Some(KeyTag { uri: None, iv: None }) },
    ];
    let v = plan_segments("http://h/p/list.m3u8", 0, &entries, 0).unwrap();
    assert_eq!(v[1].url, "http://h/p/b.ts");
    assert!(v.iter().all(|p| p.key_url.is_none() && p.iv.is_none()));
    let bad = vec![MediaEntry { uri: "a.ts".to_string(), key: Some(KeyTag { uri: Some("k".to_string()), iv: Some("0x12".to_string()) }) }];
    assert!(matches!(plan_segments("http://h/p/list.m3u8", 0, &bad, 0), Err(Error::IsNotNumber(_))));
    assert!(matches!(plan_segments("not a url", 0, &entries, 0), Err(Error::UrlParseError)));
}

#[test]
fn aes_segments_scenario() {
    let bodies: Vec<Vec<u8>> = (0..5u8).map(|i| vec![i; 100 + i as usize * 7]).collect();
    let mut out = Vec::new();
    let mut order = SegmentOrder::new(0);
    let mut progress = SegmentProgress::new(0, 0);
    let mut ledger = ByteArrayRecorder::new(Vec::new());
    let stack = plan_m3u8(segments(5), false, &mut ledger).unwrap();
    assert_eq!(ledger.index(0), 5);
    let mut stack = stack;
    let mut ready: Vec<(u64, Vec<u8>)> = Vec::new();
    while let Some(s) = stack.pop() {
        let iv = default_iv(s.index);
        let enc = encrypt(&KEY, &iv, &bodies[s.index as usize]);
        let seg = segment(s.index, Some(KEY), Some(iv));
        ready.push((s.index, decode_segment(&seg, enc).unwrap()));
    }
    // workers finish out of order
    ready.reverse();
    while !ready.is_empty() {
        let pos = ready.iter().position(|(i, _)| order.try_release(*i)).unwrap();
        let (index, body) = ready.remove(pos);
        let at = progress.on_segment(index, body.len() as u64);
        assert_eq!(at as usize, out.len());
        out.extend(body);
        ledger.write(1, progress.completed());
        ledger.write(2, progress.seek());
    }
    assert_eq!(out, bodies.concat());
    assert_eq!((ledger.index(1), ledger.index(2)), (5, out.len() as u64));
}

#[test]
fn hls_resume_scenario() {
    let mut ledger = ByteArrayRecorder::new(Vec::new());
    ledger.write(0, 5);
    ledger.write(1, 2);
    ledger.write(2, 300);
    let mut stack = plan_m3u8(segments(5), true, &mut ledger).unwrap();
    let mut fetched = Vec::new();
    while let Some(s) = stack.pop() {
        fetched.push(s.index);
    }
    assert_eq!(fetched, vec![2, 3, 4]);
    let progress = SegmentProgress::new(ledger.index(1), ledger.index(2));
    assert_eq!((progress.completed(), progress.seek()), (2, 300));
}

#[test]
fn hls_inconsistent_parts() {
    let mut ledger = ByteArrayRecorder::new(Vec::new());
    ledger.write(0, 4);
    assert!(matches!(plan_m3u8(segments(5), true, &mut ledger), Err(Error::PartsAreNotConsistent)));
    ledger.write(0, 5);
    ledger.write(1, 6);
    assert!(matches!(plan_m3u8(segments(5), true, &mut ledger), Err(Error::PartsAreNotConsistent)));
}

#[test]
fn release_order_is_increasing() {
    let mut order = SegmentOrder::new(10);
    assert!(!order.try_release(12));
    assert!(!order.try_release(11));
    assert!(order.try_release(10));
    assert!(!order.try_release(12));
    assert!(order.try_release(11));
    assert!(order.try_release(12));
    assert_eq!(order.next(), 13);
}

#[test]
fn segment_offsets_increase() {
    let mut p = SegmentProgress::new(0, 0);
    assert_eq!(p.on_segment(0, 10), 0);
    assert_eq!(p.on_segment(1, 5), 10);
    assert_eq!(p.on_segment(2, 1), 15);
    assert_eq!((p.completed(), p.seek()), (3, 16));
}

#[test]
fn decryption_failures() {
    let iv = [0u8; 16];
    assert_eq!(decrypt_aes128(&KEY, &iv, &[1, 2, 3]), Err(Error::AES128DecryptFail));
    let enc = encrypt(&KEY, &iv, b"hello world");
    assert_eq!(decrypt_aes128(&KEY, &iv, &enc).unwrap(), b"hello world".to_vec());
    assert_ne!(decrypt_aes128(&KEY, &[1u8; 16], &enc), Ok(b"hello world".to_vec()));
    let keyed = segment(0, Some(KEY), Some(iv));
    assert_eq!(decode_segment(&keyed, vec![0u8; 15]), Err(Error::AES128DecryptFail));
    let plain = segment(0, None, Some(iv));
    assert_eq!(decode_segment(&plain, enc.clone()).unwrap(), enc);
}

#[test]
fn keys_and_cache() {
    assert_eq!(key_from_bytes(&KEY.to_vec()).unwrap(), KEY);
    assert!(matches!(key_from_bytes(&vec![1, 2]), Err(Error::NetError(_))));
    let cache = vec![("http://h/k".to_string(), KEY)];
    assert_eq!(find_key(&cache, "http://h/k"), Some(KEY));
    assert_eq!(find_key(&cache, "http://h/other"), None);
}
