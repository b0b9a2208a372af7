use recordlog::mem::QueueIndex;
use recordlog::{LogError, Record};

fn add(position: u64, queue: &str, payload: &[u8]) -> Record {
    Record::AddRecord { position, queue: queue.to_owned(), payload: payload.to_vec() }
}

fn trunc(position: u64, queue: &str) -> Record {
    Record::Truncate { position, queue: queue.to_owned() }
}

#[test]
fn index_apply_and_range() {
    let mut index = QueueIndex::new();
    assert!(index.apply(&add(0, "q", b"a")).is_ok());
    assert!(index.apply(&add(1, "q", b"b")).is_ok());
    assert!(index.apply(&add(5, "q", b"c")).is_ok());
    assert_eq!(
        index.range("q", 0),
        vec![(0, b"a".to_vec()), (1, b"b".to_vec()), (5, b"c".to_vec())]
    );
    assert_eq!(index.range("q", 1), vec![(1, b"b".to_vec()), (5, b"c".to_vec())]);
    assert_eq!(index.range("q", 6), vec![]);
    assert_eq!(index.range("other", 0), vec![]);
    assert_eq!(index.tail_position("q"), Some(5));
    assert_eq!(index.tail_position("other"), None);
}

#[test]
fn index_rejects_non_increasing_position() {
    let mut index = QueueIndex::new();
    assert!(index.apply(&add(4, "q", b"a")).is_ok());
    assert_eq!(index.apply(&add(4, "q", b"b")), Err(LogError::InvariantViolation));
    assert_eq!(index.apply(&add(3, "q", b"b")), Err(LogError::InvariantViolation));
    // the failed applies changed nothing
    assert_eq!(index.range("q", 0), vec![(4, b"a".to_vec())]);
}

#[test]
fn index_truncate_drops_at_or_below() {
    let mut index = QueueIndex::new();
    for p in 0..5u64 {
        assert!(index.apply(&add(p, "q", &[p as u8])).is_ok());
    }
    assert!(index.apply(&trunc(2, "q")).is_ok());
    assert_eq!(index.range("q", 0), vec![(3, vec![3]), (4, vec![4])]);
    assert_eq!(index.frontier_position("q"), Some(2));
    // truncation does not move the tail backwards
    assert_eq!(index.tail_position("q"), Some(4));
}

#[test]
fn index_rejects_truncate_below_frontier() {
    let mut index = QueueIndex::new();
    assert!(index.apply(&add(0, "q", b"a")).is_ok());
    assert!(index.apply(&trunc(3, "q")).is_ok());
    assert_eq!(index.apply(&trunc(2, "q")), Err(LogError::InvariantViolation));
    // truncating again at the frontier is fine
    assert!(index.apply(&trunc(3, "q")).is_ok());
}

#[test]
fn index_truncate_unknown_queue_records_frontier() {
    let mut index = QueueIndex::new();
    assert!(index.apply(&trunc(9, "q")).is_ok());
    assert_eq!(index.range("q", 0), vec![]);
    assert_eq!(index.tail_position("q"), Some(9));
    assert_eq!(index.frontier_position("q"), Some(9));
    // a later append continues past the truncated range
    assert!(index.apply(&add(10, "q", b"x")).is_ok());
    assert_eq!(index.range("q", 0), vec![(10, b"x".to_vec())]);
}

#[test]
fn index_truncate_beyond_tail_is_accepted() {
    let mut index = QueueIndex::new();
    assert!(index.apply(&add(0, "q", b"a")).is_ok());
    assert!(index.apply(&trunc(100, "q")).is_ok());
    assert_eq!(index.range("q", 0), vec![]);
    assert_eq!(index.tail_position("q"), Some(100));
}
