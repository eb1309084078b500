use api_stub::log_hub::{
    init_log_state, log_line, log_snapshot, request_log_line, response_log_line, subscribe_logs,
    LogState, CHANNEL_CAPACITY, LOG_CAPACITY,
};
use tokio::sync::broadcast::error::TryRecvError;

#[test]
fn a_new_log_is_empty() {
    let state = init_log_state();
    assert_eq!(log_snapshot(&state), Vec::<String>::new());
}

#[test]
fn lines_are_kept_in_the_order_of_their_arrival() {
    let mut state = init_log_state();
    log_line(&mut state, "one".to_string());
    log_line(&mut state, "two".to_string());
    log_line(&mut state, "three".to_string());
    assert_eq!(log_snapshot(&state), vec!["one", "two", "three"]);
}

#[test]
fn the_history_holds_the_last_two_hundred_lines() {
    let mut state = init_log_state();
    for i in 0..250 {
        log_line(&mut state, format!("line {}", i));
    }
    let snapshot = log_snapshot(&state);
    assert_eq!(snapshot.len(), 200);
    let expected: Vec<String> = (50..250).map(|i| format!("line {}", i)).collect();
    assert_eq!(snapshot, expected);
    for i in 0..50 {
        assert!(!snapshot.contains(&format!("line {}", i)));
    }
}

#[test]
fn the_history_is_full_at_its_capacity_and_not_before() {
    assert_eq!(LOG_CAPACITY, 200);
    assert_eq!(CHANNEL_CAPACITY, 256);
    let mut state = init_log_state();
    for i in 0..200 {
        log_line(&mut state, format!("{}", i));
    }
    assert_eq!(log_snapshot(&state).len(), 200);
    assert_eq!(log_snapshot(&state)[0], "0");
    log_line(&mut state, "200".to_string());
    let snapshot = log_snapshot(&state);
    assert_eq!(snapshot.len(), 200);
    assert_eq!(snapshot[0], "1");
    assert_eq!(snapshot[199], "200");
}

#[test]
fn a_subscriber_gets_what_is_published_after_it_subscribed() {
    let mut state = init_log_state();
    let mut early = subscribe_logs(&state);
    log_line(&mut state, "X".to_string());
    assert_eq!(early.try_recv().unwrap(), "X");
    assert!(matches!(early.try_recv(), Err(TryRecvError::Empty)));
}

#[test]
fn a_late_subscriber_does_not_get_the_history() {
    let mut state = init_log_state();
    log_line(&mut state, "X".to_string());
    let mut late = subscribe_logs(&state);
    assert!(matches!(late.try_recv(), Err(TryRecvError::Empty)));
    assert_eq!(log_snapshot(&state), vec!["X"]);
    log_line(&mut state, "Y".to_string());
    assert_eq!(late.try_recv().unwrap(), "Y");
}

#[test]
fn every_subscriber_gets_every_line() {
    let mut state = init_log_state();
    let mut a = subscribe_logs(&state);
    let mut b = subscribe_logs(&state);
    log_line(&mut state, "1".to_string());
    log_line(&mut state, "2".to_string());
    assert_eq!(a.try_recv().unwrap(), "1");
    assert_eq!(a.try_recv().unwrap(), "2");
    assert_eq!(b.try_recv().unwrap(), "1");
    assert_eq!(b.try_recv().unwrap(), "2");
}

#[test]
fn a_slow_subscriber_loses_lines_and_the_publisher_goes_on() {
    let mut state = init_log_state();
    let mut slow = subscribe_logs(&state);
    for i in 0..300 {
        log_line(&mut state, format!("{}", i));
    }
    assert!(matches!(slow.try_recv(), Err(TryRecvError::Lagged(44))));
    assert_eq!(slow.try_recv().unwrap(), "44");
    assert_eq!(log_snapshot(&state).len(), 200);
}

#[test]
fn publishing_without_subscribers_fills_the_history() {
    let mut state = init_log_state();
    log_line(&mut state, "alone".to_string());
    assert_eq!(log_snapshot(&state), vec!["alone"]);
}

#[test]
fn the_lines_of_a_request_and_of_a_response() {
    assert_eq!(request_log_line("GET", "/api/v1/ping?x=1"), "REQ GET /api/v1/ping?x=1");
    assert_eq!(response_log_line("200 OK"), "RES 200 OK");
    assert_eq!(request_log_line("", ""), "REQ  ");
}

#[test]
fn the_feed_and_the_buffer_work_apart() {
    let LogState { feed, mut buffer } = init_log_state();
    let mut early = feed.subscribe();
    feed.publish("sent".to_string());
    assert_eq!(early.try_recv().unwrap(), "sent");
    assert_eq!(buffer.snapshot(), Vec::<String>::new());
    buffer.record("kept".to_string());
    assert_eq!(buffer.snapshot(), vec!["kept"]);
    assert!(matches!(early.try_recv(), Err(TryRecvError::Empty)));
}

#[test]
fn a_subscription_belongs_to_the_log_it_was_taken_from() {
    let mut one = init_log_state();
    let mut other = init_log_state();
    let mut of_one = subscribe_logs(&one);
    let mut of_other = subscribe_logs(&other);
    log_line(&mut one, "for one".to_string());
    assert_eq!(of_one.try_recv().unwrap(), "for one");
    assert!(matches!(of_other.try_recv(), Err(TryRecvError::Empty)));
    log_line(&mut other, "for the other".to_string());
    assert_eq!(of_other.try_recv().unwrap(), "for the other");
    assert!(matches!(of_one.try_recv(), Err(TryRecvError::Empty)));
}

#[test]
fn the_buffer_alone_keeps_the_last_two_hundred_lines() {
    let LogState { feed: _, mut buffer } = init_log_state();
    for i in 0..201 {
        buffer.record(format!("{}", i));
    }
    let snapshot = buffer.snapshot();
    assert_eq!(snapshot.len(), 200);
    assert_eq!(snapshot[0], "1");
    assert_eq!(snapshot[199], "200");
}
