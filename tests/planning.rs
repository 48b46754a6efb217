use aget::error::Error;
use aget::ledger::RangeRecorder;
use aget::list::{SharedRangList, SharedVec, StackLike};
use aget::plan::{is_completed, make_stack, plan_http, worker_count, ContentLengthValue, HttpPlan};
use aget::range::RangePair;
use aget::status::{RateStatus, TaskInfo};
use aget::worker::{
    range_worker_action, record_first_error, segment_worker_action, IdleTimer, RangeProgress, WorkerAction,
};

const MIB: u64 = 1024 * 1024;

fn rp(b: u64, e: u64) -> RangePair {
    RangePair::new(b, e)
}

fn ranged(p: Result<HttpPlan, Error>) -> Vec<RangePair> {
    match p {
        Ok(HttpPlan::Ranged(v)) => v,
        other => panic!("expected a ranged plan, got {:?}", other),
    }
}

/// Pop every chunk, fill the chunk's bytes in `file` and append it to the ledger.
fn drain(stack: Vec<RangePair>, ledger: &mut RangeRecorder, file: &mut [u8], limit: Option<u64>) -> u64 {
    let mut stack = SharedRangList::new(stack);
    let mut done = 0u64;
    while let Some(pair) = stack.pop() {
        if let Some(l) = limit {
            if done >= l {
                break;
            }
        }
        for x in pair.begin..=pair.end {
            file[x as usize] = (x % 251) as u8;
        }
        ledger.write_pair(pair);
        done += pair.length();
    }
    done
}

#[test]
fn fresh_range_download_scenario() {
    let total = 10 * MIB;
    let mut ledger = RangeRecorder::new(Vec::new());
    let stack = ranged(plan_http(ContentLengthValue::RangeLength(total), false, &mut ledger, MIB));
    assert_eq!(stack.len(), 10);
    assert_eq!(*stack.last().unwrap(), rp(0, MIB - 1));
    assert_eq!(worker_count(4, stack.len()), 4);
    assert_eq!(ledger.total(), total);
    let mut file = vec![0u8; total as usize];
    let n = drain(stack, &mut ledger, &mut file, None);
    assert_eq!(n, total);
    assert_eq!(ledger.count().unwrap(), total);
    assert_eq!(ledger.gaps().unwrap(), vec![]);
    assert!(file.iter().enumerate().all(|(i, b)| *b == (i as u64 % 251) as u8));
}

#[test]
fn resume_after_kill_scenario() {
    let total = 10 * MIB;
    let mut ledger = RangeRecorder::new(Vec::new());
    let stack = ranged(plan_http(ContentLengthValue::RangeLength(total), false, &mut ledger, MIB));
    let mut file = vec![0u8; total as usize];
    let first = drain(stack, &mut ledger, &mut file, Some(3 * MIB));
    assert_eq!(first, 3 * MIB);
    // relaunch: output exists, the ledger on disk is what was appended
    let mut reread = RangeRecorder::new(ledger.as_bytes().clone());
    let stack = ranged(plan_http(ContentLengthValue::RangeLength(total), true, &mut reread, MIB));
    let refetch: u64 = stack.iter().map(|p| p.length()).sum();
    assert_eq!(refetch, 7 * MIB);
    assert!(stack.iter().all(|p| p.begin >= 3 * MIB));
    assert_eq!(reread.records(), vec![rp(0, 3 * MIB - 1)]);
    drain(stack, &mut reread, &mut file, None);
    assert_eq!(reread.count().unwrap(), total);
    assert!(file.iter().enumerate().all(|(i, b)| *b == (i as u64 % 251) as u8));
}

#[test]
fn resume_refetches_only_missing_ranges() {
    let mut ledger = RangeRecorder::new(Vec::new());
    ledger.write_total(100);
    ledger.write_pair(rp(10, 19));
    ledger.write_pair(rp(50, 79));
    let stack = ranged(plan_http(ContentLengthValue::RangeLength(100), true, &mut ledger, 15));
    let mut order = stack.clone();
    order.reverse();
    assert_eq!(order, vec![rp(0, 9), rp(20, 34), rp(35, 49), rp(80, 94), rp(95, 99)]);
}

#[test]
fn direct_download_scenario() {
    let mut ledger = RangeRecorder::new(Vec::new());
    let p = plan_http(ContentLengthValue::DirectLength(MIB), false, &mut ledger, MIB);
    assert!(matches!(p, Ok(HttpPlan::Direct)));
    assert!(ledger.as_bytes().is_empty());
    let p = plan_http(ContentLengthValue::NoLength, false, &mut ledger, MIB);
    assert!(matches!(p, Ok(HttpPlan::Direct)));
    let mut progress = RangeProgress::new(rp(0, u64::MAX));
    assert_eq!(progress.on_chunk(1000), Some(rp(0, 999)));
    assert_eq!(progress.on_chunk(24), Some(rp(1000, 1023)));
    assert_eq!(progress.offset(), 1024);
}

#[test]
fn inconsistent_content_length_scenario() {
    let mut ledger = RangeRecorder::new(Vec::new());
    let stack = ranged(plan_http(ContentLengthValue::RangeLength(10 * MIB), false, &mut ledger, MIB));
    let mut file = vec![0u8; (10 * MIB) as usize];
    drain(stack, &mut ledger, &mut file, Some(2 * MIB));
    let on_disk = ledger.as_bytes().clone();
    let mut reread = RangeRecorder::new(on_disk.clone());
    let p = plan_http(ContentLengthValue::RangeLength(9 * MIB), true, &mut reread, MIB);
    assert_eq!(p.unwrap_err(), Error::ContentLengthIsNotConsistent);
    assert_eq!(reread.as_bytes(), &on_disk);
}

#[test]
fn empty_resource_plan() {
    let mut ledger = RangeRecorder::new(Vec::new());
    assert!(matches!(plan_http(ContentLengthValue::RangeLength(0), false, &mut ledger, MIB), Ok(HttpPlan::Empty)));
}

#[test]
fn fresh_plan_ignores_stale_ledger() {
    let mut ledger = RangeRecorder::new(Vec::new());
    ledger.write_total(7);
    ledger.write_pair(rp(0, 3));
    let stack = ranged(plan_http(ContentLengthValue::RangeLength(20), false, &mut ledger, 10));
    assert_eq!(stack, vec![rp(10, 19), rp(0, 9)]);
    assert_eq!(ledger.records(), vec![]);
}

#[test]
fn completion_check() {
    assert!(is_completed(true, false));
    assert!(!is_completed(true, true));
    assert!(!is_completed(false, false));
}

#[test]
fn stack_pops_in_ascending_order() {
    let s = make_stack(&vec![rp(0, 4), rp(10, 12)], 2);
    assert_eq!(s, vec![rp(12, 12), rp(10, 11), rp(4, 4), rp(2, 3), rp(0, 1)]);
    let mut stack = SharedVec::new(s);
    assert_eq!(stack.len(), 5);
    assert_eq!(stack.pop(), Some(rp(0, 1)));
    stack.push(rp(1, 1));
    assert_eq!(stack.pop(), Some(rp(1, 1)));
    assert_eq!(worker_count(10, 3), 3);
}

#[test]
fn range_progress_and_residual() {
    let mut p = RangeProgress::new(rp(100, 199));
    assert_eq!(p.on_chunk(30), Some(rp(100, 129)));
    assert_eq!(p.residual(), Some(rp(130, 199)));
    assert_eq!(p.finish(), Err(Error::UncompletedRead));
    assert_eq!(p.on_chunk(70), Some(rp(130, 199)));
    assert_eq!(p.count(), 100);
    assert_eq!(p.residual(), None);
    assert_eq!(p.finish(), Ok(()));
    let mut top = RangeProgress::new(rp(u64::MAX - 1, u64::MAX));
    assert_eq!(top.on_chunk(2), None);
}

#[test]
fn idle_timer_two_ticks() {
    let mut t = IdleTimer::new();
    assert!(!t.on_tick());
    t.on_data();
    assert!(!t.on_tick());
    assert!(t.on_tick());
}

#[test]
fn worker_policies() {
    assert_eq!(range_worker_action(&Error::InnerError("x".to_string())), WorkerAction::StopAll);
    assert_eq!(range_worker_action(&Error::Timeout), WorkerAction::Continue);
    assert_eq!(segment_worker_action(&Error::Timeout), WorkerAction::Retry);
    assert_eq!(segment_worker_action(&Error::UncompletedRead), WorkerAction::Fail);
    let mut slot = None;
    record_first_error(&mut slot, Error::Timeout);
    record_first_error(&mut slot, Error::UncompletedRead);
    assert_eq!(slot, Some(Error::Timeout));
}

#[test]
fn rate_status_counts() {
    let mut r = RateStatus::new();
    r.set_total(10);
    r.add(5);
    assert_eq!((r.total(), r.count()), (15, 5));
    r.clean();
    assert_eq!((r.total(), r.count()), (15, 0));
    r.reset();
    assert_eq!((r.total(), r.count()), (0, 0));
    let d = RateStatus::default();
    assert!(d.tick() <= std::time::Instant::now());
}

#[test]
fn task_info_from_ledger() {
    let mut ledger = RangeRecorder::new(Vec::new());
    ledger.write_total(100);
    ledger.write_pair(rp(0, 9));
    ledger.write_pair(rp(5, 19));
    let mut info = TaskInfo::new("out.bin".to_string(), &ledger).unwrap();
    assert_eq!(info.content_length(), 100);
    assert_eq!(info.completed_length(), 20);
    assert_eq!(info.remains(), 80);
    info.add_completed(30);
    assert_eq!((info.completed_length(), info.interval_length(), info.remains()), (50, 30, 50));
    info.clean_interval();
    assert_eq!(info.interval_length(), 0);
    assert_eq!(info.path(), "out.bin");
    let mut broken = RangeRecorder::new(Vec::new());
    broken.write_total(100);
    broken.write_pair(rp(9, 1));
    assert!(matches!(TaskInfo::new("out.bin".to_string(), &broken), Err(Error::Bug(_))));
}
