use balance_tracker::tracker::{Config, EventKind, Tracker, TrackError};

fn cfg() -> Config {
    Config::new(String::from("utoken"), String::from("sink"))
}

fn s(x: &str) -> String {
    String::from(x)
}

#[test]
fn fresh_tracker_reads_zero() {
    let tr = Tracker::new(cfg());
    assert_eq!(tr.supply_at(0), 0);
    assert_eq!(tr.supply_at(u64::MAX), 0);
    assert_eq!(tr.balance_at(&s("alice"), 12345), 0);
}

#[test]
fn mint_credits_supply_and_receiver() {
    let mut tr = Tracker::new(cfg());
    let r = tr.block_before_send(7, &s("sink"), &s("alice"), &s("utoken"), 100);
    assert_eq!(r, Ok(()));
    assert_eq!(tr.supply_at(7), 100);
    assert_eq!(tr.balance_at(&s("alice"), 7), 100);
    // zero default before the first recorded event
    assert_eq!(tr.supply_at(6), 0);
    assert_eq!(tr.balance_at(&s("alice"), 6), 0);
}

#[test]
fn burn_debits_sender_and_supply() {
    let mut tr = Tracker::new(cfg());
    assert_eq!(tr.block_before_send(1, &s("sink"), &s("alice"), &s("utoken"), 100), Ok(()));
    let r = tr.block_before_send(5, &s("alice"), &s("sink"), &s("utoken"), 50);
    assert_eq!(r, Ok(()));
    assert_eq!(tr.balance_at(&s("alice"), 5), 50);
    assert_eq!(tr.supply_at(5), 50);
    // the past is untouched
    assert_eq!(tr.balance_at(&s("alice"), 4), 100);
    assert_eq!(tr.supply_at(4), 100);
}

#[test]
fn transfer_moves_balance_and_keeps_supply() {
    let mut tr = Tracker::new(cfg());
    assert_eq!(tr.block_before_send(1, &s("sink"), &s("alice"), &s("utoken"), 50), Ok(()));
    let r = tr.block_before_send(9, &s("alice"), &s("bob"), &s("utoken"), 30);
    assert_eq!(r, Ok(()));
    assert_eq!(tr.balance_at(&s("alice"), 9), 20);
    assert_eq!(tr.balance_at(&s("bob"), 9), 30);
    assert_eq!(tr.supply_at(9), 50);
}

#[test]
fn transfer_to_self_changes_nothing_visible() {
    let mut tr = Tracker::new(cfg());
    assert_eq!(tr.block_before_send(1, &s("sink"), &s("alice"), &s("utoken"), 40), Ok(()));
    assert_eq!(tr.block_before_send(3, &s("alice"), &s("alice"), &s("utoken"), 25), Ok(()));
    assert_eq!(tr.balance_at(&s("alice"), 3), 40);
    assert_eq!(tr.supply_at(3), 40);
}

#[test]
fn mint_then_burn_to_sink_is_net_zero() {
    let mut tr = Tracker::new(cfg());
    assert_eq!(tr.block_before_send(1, &s("sink"), &s("alice"), &s("utoken"), 10), Ok(()));
    assert_eq!(tr.block_before_send(4, &s("sink"), &s("sink"), &s("utoken"), 1000), Ok(()));
    assert_eq!(tr.supply_at(4), 10);
    assert_eq!(tr.balance_at(&s("sink"), 4), 0);
}

#[test]
fn denom_mismatch_is_rejected_without_any_change() {
    let mut tr = Tracker::new(cfg());
    assert_eq!(tr.block_before_send(1, &s("sink"), &s("alice"), &s("utoken"), 100), Ok(()));
    let r = tr.block_before_send(8, &s("alice"), &s("bob"), &s("other"), 10);
    assert_eq!(r, Err(TrackError::DenomMismatch));
    for t in 0..12 {
        assert_eq!(tr.balance_at(&s("alice"), t), if t >= 1 { 100 } else { 0 });
        assert_eq!(tr.balance_at(&s("bob"), t), 0);
        assert_eq!(tr.supply_at(t), if t >= 1 { 100 } else { 0 });
    }
}

#[test]
fn underflow_is_rejected_without_any_change() {
    let mut tr = Tracker::new(cfg());
    assert_eq!(tr.block_before_send(2, &s("sink"), &s("alice"), &s("utoken"), 10), Ok(()));
    let r = tr.block_before_send(6, &s("alice"), &s("bob"), &s("utoken"), 20);
    assert_eq!(r, Err(TrackError::Underflow));
    for t in 0..10 {
        assert_eq!(tr.balance_at(&s("alice"), t), if t >= 2 { 10 } else { 0 });
        assert_eq!(tr.balance_at(&s("bob"), t), 0);
        assert_eq!(tr.supply_at(t), if t >= 2 { 10 } else { 0 });
    }
}

#[test]
fn burn_of_more_than_balance_is_rejected() {
    let mut tr = Tracker::new(cfg());
    assert_eq!(tr.block_before_send(2, &s("sink"), &s("alice"), &s("utoken"), 10), Ok(()));
    let r = tr.block_before_send(6, &s("alice"), &s("sink"), &s("utoken"), 11);
    assert_eq!(r, Err(TrackError::Underflow));
    assert_eq!(tr.balance_at(&s("alice"), 6), 10);
    assert_eq!(tr.supply_at(6), 10);
}

#[test]
fn overflow_is_rejected_without_any_change() {
    let mut tr = Tracker::new(cfg());
    assert_eq!(tr.block_before_send(1, &s("sink"), &s("alice"), &s("utoken"), u128::MAX), Ok(()));
    let r = tr.block_before_send(2, &s("sink"), &s("bob"), &s("utoken"), 1);
    assert_eq!(r, Err(TrackError::Overflow));
    assert_eq!(tr.supply_at(2), u128::MAX);
    assert_eq!(tr.balance_at(&s("bob"), 2), 0);
    // a transfer overflowing the receiver is rejected too
    assert_eq!(tr.block_before_send(3, &s("sink"), &s("bob"), &s("utoken"), 0), Ok(()));
    // bob now has a history entry of 0; alice holds u128::MAX
    let r2 = tr.block_before_send(4, &s("bob"), &s("alice"), &s("utoken"), 0);
    assert_eq!(r2, Ok(()));
    assert_eq!(tr.balance_at(&s("alice"), 4), u128::MAX);
}

#[test]
fn mint_then_burn_still_checks_the_credit() {
    // the engine credits before it debits, as the host's ledger does, so a
    // net-zero mint-then-burn still overflows a full supply
    let mut tr = Tracker::new(cfg());
    assert_eq!(tr.block_before_send(1, &s("sink"), &s("alice"), &s("utoken"), u128::MAX), Ok(()));
    let r = tr.block_before_send(2, &s("sink"), &s("sink"), &s("utoken"), 1);
    assert_eq!(r, Err(TrackError::Overflow));
    assert_eq!(tr.supply_at(2), u128::MAX);
}

#[test]
fn monotonic_read_consistency() {
    let mut tr = Tracker::new(cfg());
    assert_eq!(tr.block_before_send(5, &s("sink"), &s("alice"), &s("utoken"), 10), Ok(()));
    assert_eq!(tr.block_before_send(10, &s("sink"), &s("alice"), &s("utoken"), 7), Ok(()));
    // a query between the two checkpoints reflects exactly the earlier one
    assert_eq!(tr.balance_at(&s("alice"), 7), 10);
    assert_eq!(tr.supply_at(7), 10);
    // at and after the second checkpoint both are reflected
    assert_eq!(tr.balance_at(&s("alice"), 10), 17);
    assert_eq!(tr.supply_at(u64::MAX), 17);
    // before the first, none is
    assert_eq!(tr.balance_at(&s("alice"), 4), 0);
}

#[test]
fn same_timestamp_write_overwrites() {
    let mut tr = Tracker::new(cfg());
    assert_eq!(tr.block_before_send(5, &s("sink"), &s("alice"), &s("utoken"), 10), Ok(()));
    assert_eq!(tr.block_before_send(5, &s("sink"), &s("alice"), &s("utoken"), 3), Ok(()));
    assert_eq!(tr.balance_at(&s("alice"), 5), 13);
    assert_eq!(tr.supply_at(5), 13);
    assert_eq!(tr.balance_at(&s("alice"), 4), 0);
}

#[test]
fn sum_of_balances_equals_supply_through_history() {
    let mut tr = Tracker::new(cfg());
    let events: [(u64, &str, &str, u128); 7] = [
        (1, "sink", "alice", 100),
        (2, "sink", "bob", 40),
        (3, "alice", "bob", 25),
        (3, "bob", "carol", 5),
        (6, "carol", "sink", 5),
        (8, "sink", "sink", 1_000_000),
        (9, "bob", "alice", 60),
    ];
    for (t, from, to, amount) in events {
        assert_eq!(tr.block_before_send(t, &s(from), &s(to), &s("utoken"), amount), Ok(()));
    }
    for t in 0..12 {
        let sum = tr.balance_at(&s("alice"), t)
            + tr.balance_at(&s("bob"), t)
            + tr.balance_at(&s("carol"), t)
            + tr.balance_at(&s("sink"), t);
        assert_eq!(sum, tr.supply_at(t), "at timestamp {t}");
    }
    assert_eq!(tr.balance_at(&s("alice"), 11), 135);
    assert_eq!(tr.balance_at(&s("bob"), 11), 0);
    assert_eq!(tr.balance_at(&s("carol"), 11), 0);
    assert_eq!(tr.supply_at(11), 135);
}

#[test]
fn classify_follows_the_sink() {
    let tr = Tracker::new(cfg());
    assert_eq!(tr.classify(&s("alice"), &s("bob")), EventKind::Transfer);
    assert_eq!(tr.classify(&s("sink"), &s("bob")), EventKind::Mint);
    assert_eq!(tr.classify(&s("alice"), &s("sink")), EventKind::Burn);
    assert_eq!(tr.classify(&s("sink"), &s("sink")), EventKind::MintThenBurn);
}
