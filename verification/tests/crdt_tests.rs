use alice_cache::crdt::{CrdtClock, InvalidationLog};

#[test]
fn clock_tick() {
    let c = CrdtClock::new(1, 0);
    let c2 = c.tick();
    assert_eq!(c2.counter, 1);
    assert_eq!(c2.timestamp, 1);
}

#[test]
fn clock_merge_same_ts() {
    let a = CrdtClock::new(5, 3);
    let b = CrdtClock::new(5, 7);
    let m = a.merge(b);
    assert_eq!(m.timestamp, 5);
    assert_eq!(m.counter, 8); // max(3,7) + 1
}

#[test]
fn clock_merge_different_ts() {
    let a = CrdtClock::new(3, 10);
    let b = CrdtClock::new(5, 2);
    let m = a.merge(b);
    assert_eq!(m.timestamp, 5);
    assert_eq!(m.counter, 3); // b.counter + 1
}

#[test]
fn clock_ordering() {
    let a = CrdtClock::new(1, 0);
    let b = CrdtClock::new(2, 0);
    assert!(a < b);
}

#[test]
fn log_invalidate_and_check() {
    let mut log = InvalidationLog::new(1);
    log.invalidate("key1");
    assert!(log.is_invalid("key1"));
    assert!(!log.is_invalid("key2"));
    assert_eq!(log.len(), 1);
}

#[test]
fn log_is_stale() {
    let mut log = InvalidationLog::new(1);
    let insert_clock = CrdtClock::new(0, 0);
    log.invalidate("key1");
    assert!(log.is_stale("key1", insert_clock));
    assert!(!log.is_stale("key2", insert_clock));
}

#[test]
fn log_not_stale_if_inserted_after() {
    let mut log = InvalidationLog::new(1);
    log.invalidate("key1");
    // 挿入が無効化より後のクロック
    let insert_clock = CrdtClock::new(100, 0);
    assert!(!log.is_stale("key1", insert_clock));
}

#[test]
fn log_merge_keeps_newer() {
    let mut log_a = InvalidationLog::new(1);
    let mut log_b = InvalidationLog::new(2);

    log_a.invalidate("key1"); // clock (0,1)
                              // B で key1 を後で無効化
    log_b.set_clock(CrdtClock::new(10, 0));
    log_b.invalidate("key1"); // clock (10,1)
    log_b.invalidate("key2"); // clock (10,2)

    log_a.merge(&log_b);
    assert_eq!(log_a.len(), 2);
    // key1 は B のクロックが採用される
    let clock = log_a.invalidation_clock("key1").unwrap();
    assert_eq!(clock.timestamp, 10);
}

#[test]
fn log_merge_is_commutative() {
    let mut log_a = InvalidationLog::new(1);
    let mut log_b = InvalidationLog::new(2);
    log_a.invalidate("x");
    log_b.invalidate("y");

    let mut a_copy = log_a.clone();
    let mut b_copy = log_b.clone();

    a_copy.merge(&log_b);
    b_copy.merge(&log_a);

    assert_eq!(a_copy.len(), b_copy.len());
    assert!(a_copy.is_invalid("x"));
    assert!(a_copy.is_invalid("y"));
    assert!(b_copy.is_invalid("x"));
    assert!(b_copy.is_invalid("y"));
}

#[test]
fn log_merge_is_idempotent() {
    let mut log_a = InvalidationLog::new(1);
    let log_b = {
        let mut l = InvalidationLog::new(2);
        l.invalidate("key1");
        l
    };

    log_a.merge(&log_b);
    let len_after_first = log_a.len();
    log_a.merge(&log_b);
    assert_eq!(log_a.len(), len_after_first);
}

#[test]
fn log_purge_before() {
    let mut log = InvalidationLog::new(1);
    log.invalidate("old");
    log.set_clock(CrdtClock::new(100, 0));
    log.invalidate("new");

    log.purge_before(CrdtClock::new(50, 0));
    assert_eq!(log.len(), 1);
    assert!(!log.is_invalid("old"));
    assert!(log.is_invalid("new"));
}

#[test]
fn log_entries() {
    let mut log = InvalidationLog::new(1);
    log.invalidate("a");
    log.invalidate("b");
    let entries = log.entries();
    assert_eq!(entries.len(), 2);
}

#[test]
fn log_empty() {
    let log = InvalidationLog::new(1);
    assert!(log.is_empty());
    assert_eq!(log.node_id(), 1);
}
