use balance_tracker::history::History;
use balance_tracker::probe::HookProbe;

#[test]
fn empty_history_reads_zero_everywhere() {
    let h = History::new();
    assert_eq!(h.query_at(0), 0);
    assert_eq!(h.query_at(u64::MAX), 0);
}

#[test]
fn query_finds_most_recent_at_or_before() {
    let mut h = History::new();
    h.write(10, 1);
    h.write(20, 2);
    h.write(30, 3);
    assert_eq!(h.query_at(9), 0);
    assert_eq!(h.query_at(10), 1);
    assert_eq!(h.query_at(19), 1);
    assert_eq!(h.query_at(20), 2);
    assert_eq!(h.query_at(25), 2);
    assert_eq!(h.query_at(30), 3);
    assert_eq!(h.query_at(u64::MAX), 3);
}

#[test]
fn write_at_same_timestamp_overwrites() {
    let mut h = History::new();
    h.write(10, 1);
    h.write(10, 5);
    assert_eq!(h.query_at(10), 5);
    assert_eq!(h.query_at(9), 0);
    h.write(11, 7);
    h.write(11, 8);
    assert_eq!(h.query_at(11), 8);
    assert_eq!(h.query_at(10), 5);
}

#[test]
fn probe_flags_are_independent_and_sticky() {
    let mut p = HookProbe::new();
    assert!(!p.track_before_send_received());
    assert!(!p.block_before_send_received());
    p.record_track_before_send();
    assert!(p.track_before_send_received());
    assert!(!p.block_before_send_received());
    p.record_block_before_send();
    assert!(p.track_before_send_received());
    assert!(p.block_before_send_received());
    p.record_block_before_send();
    assert!(p.block_before_send_received());
}
