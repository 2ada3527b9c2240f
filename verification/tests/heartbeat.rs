use ws_stream::heartbeat::HeartBeat;

#[test]
fn a_new_heartbeat_wants_nothing() {
    let mut heartbeat = HeartBeat::new();
    assert!(!heartbeat.should_send_ping(0));
    assert!(!heartbeat.should_send_ping(u64::MAX));
    heartbeat.note_ping_sent(10);
    assert!(!heartbeat.is_stale(u64::MAX));
}

#[test]
fn a_ping_is_due_when_the_interval_has_passed() {
    let mut heartbeat = HeartBeat::with_timing(30, 5);
    // never pinged: the first one is due at once
    assert!(heartbeat.should_send_ping(0));
    heartbeat.note_ping_sent(100);
    // unanswered: none is due, however late it is
    assert!(!heartbeat.should_send_ping(100));
    assert!(!heartbeat.should_send_ping(1000));
    heartbeat.on_pong_received();
    assert!(!heartbeat.should_send_ping(100));
    assert!(!heartbeat.should_send_ping(129));
    assert!(heartbeat.should_send_ping(130));
    assert!(heartbeat.should_send_ping(131));
    // a clock that ran backwards makes nothing due
    assert!(!heartbeat.should_send_ping(99));
    assert_eq!(heartbeat.answered, Some(100));
}

#[test]
fn an_unanswered_ping_makes_the_connection_stale() {
    let mut heartbeat = HeartBeat::with_timing(30, 5);
    assert!(!heartbeat.is_stale(1000));
    heartbeat.note_ping_sent(100);
    assert!(!heartbeat.is_stale(100));
    assert!(!heartbeat.is_stale(105));
    assert!(heartbeat.is_stale(106));
    assert!(!heartbeat.is_stale(50));
    heartbeat.on_pong_received();
    assert!(!heartbeat.is_stale(106));
    assert!(!heartbeat.is_stale(u64::MAX));
}

#[test]
fn a_pong_without_a_ping_changes_nothing() {
    let mut heartbeat = HeartBeat::with_timing(30, 5);
    let before = heartbeat;
    heartbeat.on_pong_received();
    assert_eq!(heartbeat, before);
    heartbeat.note_ping_sent(7);
    heartbeat.on_pong_received();
    let settled = heartbeat;
    heartbeat.on_pong_received();
    assert_eq!(heartbeat, settled);
    // it does not answer a later ping in advance
    heartbeat.note_ping_sent(40);
    assert!(heartbeat.is_stale(46));
    assert_eq!(heartbeat.answered, Some(7));
}
