use recordlog::{LogError, MultiRecordLog};

const MAX_SEGMENT: usize = 1 << 20;

fn snapshot(log: &MultiRecordLog) -> Vec<(u64, Vec<u8>)> {
    let mut out = Vec::new();
    for i in 0..log.num_segments() {
        out.push((log.segment_id(i), log.segment_bytes(i).clone()));
    }
    out
}

fn reopen(log: &MultiRecordLog) -> (MultiRecordLog, bool) {
    MultiRecordLog::open(MAX_SEGMENT, snapshot(log)).unwrap()
}

#[test]
fn append_assigns_positions_from_zero() {
    let mut log = MultiRecordLog::new(MAX_SEGMENT);
    assert_eq!(log.tail_position("q1"), None);
    assert_eq!(log.append("q1", b"a").unwrap(), 0);
    assert_eq!(log.append("q1", b"b").unwrap(), 1);
    assert_eq!(log.append("q1", b"c").unwrap(), 2);
    assert_eq!(log.tail_position("q1"), Some(2));
}

#[test]
fn append_positions_resume_after_truncate_beyond_tail() {
    let mut log = MultiRecordLog::new(MAX_SEGMENT);
    assert_eq!(log.append("q", b"a").unwrap(), 0);
    log.truncate("q", 10).unwrap();
    assert_eq!(log.append("q", b"b").unwrap(), 11);
}

#[test]
fn queues_are_independent() {
    let mut log = MultiRecordLog::new(MAX_SEGMENT);
    assert_eq!(log.append("a", b"1").unwrap(), 0);
    assert_eq!(log.append("b", b"2").unwrap(), 0);
    assert_eq!(log.append("a", b"3").unwrap(), 1);
    assert_eq!(log.append("b", b"4").unwrap(), 1);
    assert_eq!(log.append("a", b"5").unwrap(), 2);
    assert_eq!(log.range("a", 0), vec![
        (0, b"1".to_vec()),
        (1, b"3".to_vec()),
        (2, b"5".to_vec()),
    ]);
    assert_eq!(log.range("b", 0), vec![(0, b"2".to_vec()), (1, b"4".to_vec())]);
}

#[test]
fn truncate_hides_entries_at_or_below() {
    let mut log = MultiRecordLog::new(MAX_SEGMENT);
    for p in 0..5u64 {
        assert_eq!(log.append("q1", &[p as u8]).unwrap(), p);
    }
    log.truncate("q1", 2).unwrap();
    assert_eq!(log.range("q1", 0), vec![(3, vec![3]), (4, vec![4])]);
}

#[test]
fn truncate_below_frontier_is_refused() {
    let mut log = MultiRecordLog::new(MAX_SEGMENT);
    log.append("q", b"x").unwrap();
    log.truncate("q", 5).unwrap();
    assert_eq!(log.truncate("q", 4), Err(LogError::InvariantViolation));
}

#[test]
fn oversized_queue_name_is_refused() {
    let mut log = MultiRecordLog::new(MAX_SEGMENT);
    let long_name = "q".repeat(0x10000);
    assert_eq!(log.append(&long_name, b"x"), Err(LogError::InvariantViolation));
    assert_eq!(log.truncate(&long_name, 0), Err(LogError::InvariantViolation));
}

#[test]
fn scenario_hello_survives_reopen() {
    let mut log = MultiRecordLog::new(MAX_SEGMENT);
    assert_eq!(log.append("q1", b"hello").unwrap(), 0);
    let (reopened, truncated) = reopen(&log);
    assert!(!truncated);
    assert_eq!(reopened.range("q1", 0), vec![(0, b"hello".to_vec())]);
}

fn ten_payloads_log() -> (MultiRecordLog, Vec<Vec<u8>>) {
    let mut log = MultiRecordLog::new(MAX_SEGMENT);
    let mut payloads = Vec::new();
    for p in 0..10u64 {
        let payload = vec![p as u8; 5000];
        assert_eq!(log.append("q1", &payload).unwrap(), p);
        payloads.push(payload);
    }
    (log, payloads)
}

#[test]
fn scenario_payloads_spanning_blocks_survive_reopen() {
    let (log, payloads) = ten_payloads_log();
    let (reopened, truncated) = reopen(&log);
    assert!(!truncated);
    let got = reopened.range("q1", 0);
    assert_eq!(got.len(), 10);
    for p in 0..10usize {
        assert_eq!(got[p].0, p as u64);
        assert_eq!(got[p].1, payloads[p]);
    }
}

#[test]
fn scenario_corruption_keeps_records_before_it() {
    let (log, payloads) = ten_payloads_log();
    let mut segments = snapshot(&log);
    // each record is one 5020-byte frame while frames fit the block, so
    // the 6th record's frame starts at 25100 and its stored checksum
    // occupies bytes 25103..25107
    segments[0].1[25103] ^= 0xFF;
    let (reopened, truncated) = MultiRecordLog::open(MAX_SEGMENT, segments).unwrap();
    assert!(truncated);
    let got = reopened.range("q1", 0);
    assert_eq!(got.len(), 5);
    for p in 0..5usize {
        assert_eq!(got[p].0, p as u64);
        assert_eq!(got[p].1, payloads[p]);
    }
    // the log stays usable and continues where good data ended
    let mut reopened = reopened;
    assert_eq!(reopened.append("q1", b"again").unwrap(), 5);
}

#[test]
fn scenario_truncation_survives_reopen() {
    let mut log = MultiRecordLog::new(MAX_SEGMENT);
    for p in 0..5u64 {
        assert_eq!(log.append("q1", &[p as u8]).unwrap(), p);
    }
    log.truncate("q1", 2).unwrap();
    let (reopened, truncated) = reopen(&log);
    assert!(!truncated);
    assert_eq!(reopened.range("q1", 0), vec![(3, vec![3]), (4, vec![4])]);
}

#[test]
fn reopen_with_no_new_writes_is_identity() {
    let mut log = MultiRecordLog::new(MAX_SEGMENT);
    log.append("a", b"1").unwrap();
    log.append("b", b"2").unwrap();
    log.append("a", b"3").unwrap();
    log.truncate("a", 0).unwrap();
    let (once, t1) = reopen(&log);
    assert!(!t1);
    let (twice, t2) = reopen(&once);
    assert!(!t2);
    for queue in ["a", "b"] {
        assert_eq!(once.range(queue, 0), log.range(queue, 0));
        assert_eq!(twice.range(queue, 0), log.range(queue, 0));
        assert_eq!(once.tail_position(queue), log.tail_position(queue));
        assert_eq!(twice.tail_position(queue), log.tail_position(queue));
    }
}

#[test]
fn rolling_seals_segments_at_threshold() {
    let mut log = MultiRecordLog::new(64);
    for p in 0..6u64 {
        assert_eq!(log.append("q", &[p as u8; 30]).unwrap(), p);
    }
    assert!(log.num_segments() > 1);
    for i in 1..log.num_segments() {
        assert_eq!(log.segment_id(i), log.segment_id(i - 1) + 1);
    }
    let (reopened, truncated) = MultiRecordLog::open(64, snapshot(&log)).unwrap();
    assert!(!truncated);
    assert_eq!(reopened.range("q", 0).len(), 6);
    assert_eq!(reopened.num_segments(), log.num_segments());
}

#[test]
fn reclaimable_segments_after_truncation() {
    let mut log = MultiRecordLog::new(64);
    for p in 0..6u64 {
        log.append("q", &[p as u8; 30]).unwrap();
    }
    assert_eq!(log.reclaimable_segments(), Vec::<u64>::new());
    log.truncate("q", 5).unwrap();
    let reclaimable = log.reclaimable_segments();
    assert!(!reclaimable.is_empty());
    // a leading run of segment ids, never including the active segment
    for (k, id) in reclaimable.iter().enumerate() {
        assert_eq!(*id, log.segment_id(k));
    }
    assert!(reclaimable.len() < log.num_segments());
}

#[test]
fn reopen_after_deleting_reclaimed_prefix() {
    let mut log = MultiRecordLog::new(64);
    for p in 0..6u64 {
        log.append("q", &[p as u8; 30]).unwrap();
    }
    log.truncate("q", 3).unwrap();
    let reclaimable = log.reclaimable_segments();
    assert!(!reclaimable.is_empty());
    let segments: Vec<(u64, Vec<u8>)> = snapshot(&log)
        .into_iter()
        .filter(|(id, _)| !reclaimable.contains(id))
        .collect();
    let (reopened, _) = MultiRecordLog::open(64, segments).unwrap();
    assert_eq!(reopened.range("q", 0), log.range("q", 0));
}

#[test]
fn open_refuses_segment_id_gap() {
    let mut log = MultiRecordLog::new(64);
    for p in 0..6u64 {
        log.append("q", &[p as u8; 30]).unwrap();
    }
    assert!(log.num_segments() >= 3);
    let mut segments = snapshot(&log);
    segments.remove(1);
    assert_eq!(
        MultiRecordLog::open(64, segments).err(),
        Some(LogError::IoFailure)
    );
}

#[test]
fn open_empty_input_makes_fresh_log() {
    let (log, truncated) = MultiRecordLog::open(MAX_SEGMENT, Vec::new()).unwrap();
    assert!(!truncated);
    assert_eq!(log.num_segments(), 1);
    assert_eq!(log.range("q", 0), vec![]);
    let mut log = log;
    assert_eq!(log.append("q", b"x").unwrap(), 0);
}

#[test]
fn interrupted_tail_write_is_discarded_on_reopen() {
    let mut log = MultiRecordLog::new(MAX_SEGMENT);
    log.append("q", b"kept").unwrap();
    log.append("q", b"torn").unwrap();
    let mut segments = snapshot(&log);
    let len = segments[0].1.len();
    segments[0].1.truncate(len - 2);
    let (reopened, truncated) = MultiRecordLog::open(MAX_SEGMENT, segments).unwrap();
    assert!(truncated);
    assert_eq!(reopened.range("q", 0), vec![(0, b"kept".to_vec())]);
}

#[test]
fn append_after_exhausting_positions_is_refused() {
    let mut log = MultiRecordLog::new(MAX_SEGMENT);
    log.truncate("q", u64::MAX).unwrap();
    assert_eq!(log.tail_position("q"), Some(u64::MAX));
    assert_eq!(log.append("q", b"x"), Err(LogError::InvariantViolation));
}
