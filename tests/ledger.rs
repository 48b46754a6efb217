use aget::bytes::{decode_hex, u32_to_u8x4, u64_to_u8x8, u8x8_to_u64};
use aget::chunk::{make_range_chunks, RangePart};
use aget::error::Error;
use aget::ledger::{encode_pair, gaps_of, RangeRecorder};
use aget::range::{split_pair, RangePair};
use aget::record::ByteArrayRecorder;

fn rp(b: u64, e: u64) -> RangePair {
    RangePair::new(b, e)
}

fn ledger_with(total: u64, pairs: &[(u64, u64)]) -> RangeRecorder {
    let mut r = RangeRecorder::new(Vec::new());
    r.write_total(total);
    for (b, e) in pairs {
        r.write_pair(rp(*b, *e));
    }
    r
}

#[test]
fn big_endian_round_trip() {
    assert_eq!(u64_to_u8x8(0x0102030405060708), [1, 2, 3, 4, 5, 6, 7, 8]);
    assert_eq!(u8x8_to_u64(&[1, 2, 3, 4, 5, 6, 7, 8]), 0x0102030405060708);
    assert_eq!(u8x8_to_u64(&u64_to_u8x8(u64::MAX)), u64::MAX);
    assert_eq!(u32_to_u8x4(0xdeadbeef), [0xde, 0xad, 0xbe, 0xef]);
}

#[test]
fn hex_decoding() {
    assert_eq!(decode_hex("00ff10Ab").unwrap(), vec![0x00, 0xff, 0x10, 0xab]);
    assert_eq!(decode_hex("").unwrap(), Vec::<u8>::new());
    assert!(matches!(decode_hex("abc"), Err(Error::IsNotNumber(_))));
    assert!(matches!(decode_hex("zz"), Err(Error::IsNotNumber(_))));
}

#[test]
fn split_pair_pieces() {
    let v = split_pair(&rp(0, 9), 3);
    assert_eq!(v, vec![rp(0, 2), rp(3, 5), rp(6, 8), rp(9, 9)]);
    let v = split_pair(&rp(10, 19), 5);
    assert_eq!(v, vec![rp(10, 14), rp(15, 19)]);
    assert_eq!(split_pair(&rp(5, 4), 3), vec![]);
    assert_eq!(split_pair(&rp(7, 7), 100), vec![rp(7, 7)]);
    let top = split_pair(&rp(u64::MAX - 4, u64::MAX), 2);
    assert_eq!(top, vec![rp(u64::MAX - 4, u64::MAX - 3), rp(u64::MAX - 2, u64::MAX - 1), rp(u64::MAX, u64::MAX)]);
}

#[test]
fn split_pair_law_on_values() {
    let (a, b, k) = (1000u64, 123456u64, 4096u64);
    let v = split_pair(&rp(a, b), k);
    assert_eq!(v[0].begin, a);
    assert_eq!(v.last().unwrap().end, b);
    for w in v.windows(2) {
        assert_eq!(w[0].end + 1, w[1].begin);
        assert_eq!(w[0].length(), k);
    }
    assert!(v.last().unwrap().length() <= k);
    let sum: u64 = v.iter().map(|p| p.length()).sum();
    assert_eq!(sum, b - a + 1);
}

#[test]
fn range_chunks() {
    let v = make_range_chunks(&RangePart::new(0, 4), 2);
    assert_eq!(v, vec![RangePart::new(0, 1), RangePart::new(2, 3), RangePart::new(4, 4)]);
    assert_eq!(v[2].length(), 1);
}

#[test]
fn record_bytes_layout() {
    let mut r = RangeRecorder::new(Vec::new());
    r.write_total(0x10);
    let rec = r.write_pair(rp(1, 2));
    assert_eq!(rec, vec![0, 0, 0, 0, 0, 0, 0, 1, 0, 0, 0, 0, 0, 0, 0, 2]);
    assert_eq!(encode_pair(rp(1, 2)), rec);
    let mut expect = vec![0, 0, 0, 0, 0, 0, 0, 0x10];
    expect.extend(rec);
    assert_eq!(r.as_bytes(), &expect);
    assert_eq!(r.total(), 0x10);
    assert_eq!(r.records(), vec![rp(1, 2)]);
}

#[test]
fn short_ledger_reads_zero_total() {
    let r = RangeRecorder::new(vec![1, 2]);
    assert_eq!(r.total(), 0x0102 << 48);
    assert_eq!(r.records(), vec![]);
    assert_eq!(RangeRecorder::new(Vec::new()).total(), 0);
}

#[test]
fn pairs_sorted_and_merged() {
    let r = ledger_with(100, &[(50, 59), (0, 9), (10, 19), (30, 35), (33, 40), (70, 70)]);
    assert_eq!(r.pairs().unwrap(), vec![rp(0, 19), rp(30, 40), rp(50, 59), rp(70, 70)]);
    assert_eq!(r.count().unwrap(), 20 + 11 + 10 + 1);
}

#[test]
fn pairs_union_of_appends() {
    let appended = [(5u64, 9u64), (0, 3), (20, 25), (4, 4), (8, 22), (40, 41), (39, 39)];
    let r = ledger_with(64, &appended);
    let pairs = r.pairs().unwrap();
    for w in pairs.windows(2) {
        assert!(w[0].end + 1 < w[1].begin);
    }
    for x in 0..64u64 {
        let in_pairs = pairs.iter().any(|p| p.begin <= x && x <= p.end);
        let in_appended = appended.iter().any(|(b, e)| *b <= x && x <= *e);
        assert_eq!(in_pairs, in_appended);
    }
}

#[test]
fn broken_record_is_a_bug() {
    let r = ledger_with(100, &[(0, 9), (20, 10)]);
    assert!(matches!(r.pairs(), Err(Error::Bug(_))));
    assert!(matches!(r.gaps(), Err(Error::Bug(_))));
    assert!(matches!(r.count(), Err(Error::Bug(_))));
    let mut r2 = ledger_with(100, &[(20, 10)]);
    let before = r2.as_bytes().clone();
    assert!(r2.rewrite().is_err());
    assert_eq!(r2.as_bytes(), &before);
}

#[test]
fn gaps_complete_and_disjoint() {
    let r = ledger_with(100, &[(10, 19), (30, 39), (99, 99)]);
    let gaps = r.gaps().unwrap();
    assert_eq!(gaps, vec![rp(0, 9), rp(20, 29), rp(40, 98)]);
    let pairs = r.pairs().unwrap();
    for x in 0..100u64 {
        let p = pairs.iter().any(|q| q.begin <= x && x <= q.end);
        let g = gaps.iter().any(|q| q.begin <= x && x <= q.end);
        assert!(p != g);
    }
}

#[test]
fn gaps_edge_cases() {
    assert_eq!(ledger_with(10, &[]).gaps().unwrap(), vec![rp(0, 9)]);
    assert_eq!(ledger_with(10, &[(0, 9)]).gaps().unwrap(), vec![]);
    assert_eq!(ledger_with(0, &[]).gaps().unwrap(), vec![]);
    assert_eq!(gaps_of(&vec![rp(0, 4)], 5), vec![]);
    assert_eq!(gaps_of(&vec![rp(2, 4)], 5), vec![rp(0, 1)]);
}

#[test]
fn rewrite_is_canonical() {
    let mut r = ledger_with(50, &[(20, 29), (0, 9), (10, 15), (25, 30)]);
    r.rewrite().unwrap();
    assert_eq!(r.total(), 50);
    assert_eq!(r.records(), vec![rp(0, 15), rp(20, 30)]);
    assert_eq!(r.as_bytes().len(), 8 + 2 * 16);
    let once = r.as_bytes().clone();
    r.rewrite().unwrap();
    assert_eq!(r.as_bytes(), &once);
}

#[test]
fn write_total_keeps_records() {
    let mut r = ledger_with(5, &[(1, 2)]);
    r.write_total(7);
    assert_eq!(r.total(), 7);
    assert_eq!(r.records(), vec![rp(1, 2)]);
}

#[test]
fn count_of_whole_u64_range_does_not_fit() {
    let r = ledger_with(u64::MAX, &[(0, u64::MAX)]);
    assert!(r.count().is_err());
}

#[test]
fn segment_ledger_slots() {
    let mut l = ByteArrayRecorder::new(Vec::new());
    assert_eq!(l.index(0), 0);
    l.write(0, 5);
    assert_eq!(l.as_bytes().len(), 8);
    l.write(2, 1234);
    assert_eq!(l.as_bytes().len(), 24);
    assert_eq!(l.index(1), 0);
    l.write(1, 2);
    assert_eq!((l.index(0), l.index(1), l.index(2)), (5, 2, 1234));
    assert_eq!(&l.as_bytes()[8..16], &[0, 0, 0, 0, 0, 0, 0, 2]);
}
