use metrics_push::encoder::{EncodeError, Label};
use metrics_push::pusher::{
    push_result, Action, Event, Phase, PushError, Pusher, Response, Scheduler,
    DEFAULT_INTERVAL_MS,
};
use std::sync::Arc;

fn scheduler() -> Scheduler {
    Scheduler::new("test".to_string(), vec![Label::new("k", "V")], DEFAULT_INTERVAL_MS).unwrap()
}

#[test]
fn gauge_starts_at_zero() {
    assert_eq!(Pusher::default().value(), 0);
}

#[test]
fn gauge_last_write_wins() {
    let p = Pusher::default();
    p.change_value(3);
    p.change_value(7);
    assert_eq!(p.value(), 7);
}

#[test]
fn gauge_is_set_through_a_shared_handle() {
    let p = Arc::new(Pusher::default());
    let producer = p.clone();
    let other_producer = p.clone();
    producer.change_value(3);
    other_producer.change_value(7);
    assert_eq!(p.value(), 7);
    producer.change_value(u64::MAX);
    assert_eq!(p.value(), u64::MAX);
}

#[test]
fn status_in_the_success_range_is_success() {
    assert_eq!(push_result(Response::Status(200)), Ok(()));
    assert_eq!(push_result(Response::Status(204)), Ok(()));
    assert_eq!(push_result(Response::Status(299)), Ok(()));
}

#[test]
fn status_outside_the_success_range_is_failure() {
    for code in [0u16, 99, 100, 199, 300, 404, 500, 999, 1000, u16::MAX] {
        assert_eq!(push_result(Response::Status(code)), Err(PushError::Status(code)));
    }
}

#[test]
fn transport_failure_is_failure() {
    assert_eq!(push_result(Response::Failed), Err(PushError::Transport));
}

#[test]
fn scheduler_refuses_empty_label_set() {
    assert_eq!(
        Scheduler::new("test".to_string(), Vec::new(), 1000).err(),
        Some(EncodeError::EmptyLabelSet)
    );
}

#[test]
fn scheduler_starts_asleep() {
    assert_eq!(scheduler().phase(), Phase::Sleeping);
}

#[test]
fn wake_hands_out_the_line() {
    let mut s = scheduler();
    let action = s.step(Event::Wake { now_ms: 1690000000000, value: 42 });
    assert_eq!(action, Action::Send("test{k=\"V\"} 42 1690000000000".to_string()));
    assert_eq!(s.phase(), Phase::Pushing);
}

#[test]
fn two_ticks_first_failing_second_succeeding() {
    let mut s = scheduler();
    let mut attempts = 0;

    let first = s.step(Event::Wake { now_ms: 1000, value: 3 });
    assert_eq!(first, Action::Send("test{k=\"V\"} 3 1000".to_string()));
    attempts += 1;
    let after_failure = s.step(Event::Sent(Response::Failed));
    assert_eq!(
        after_failure,
        Action::Sleep { millis: DEFAULT_INTERVAL_MS, failure: Some(PushError::Transport) }
    );
    assert_eq!(s.phase(), Phase::Sleeping);

    let second = s.step(Event::Wake { now_ms: 31000, value: 7 });
    assert_eq!(second, Action::Send("test{k=\"V\"} 7 31000".to_string()));
    attempts += 1;
    let after_success = s.step(Event::Sent(Response::Status(200)));
    assert_eq!(after_success, Action::Sleep { millis: DEFAULT_INTERVAL_MS, failure: None });

    assert_eq!(attempts, 2);
    assert_eq!(s.phase(), Phase::Sleeping);
}

#[test]
fn bad_status_is_reported_and_the_loop_goes_on() {
    let mut s = Scheduler::new("m".to_string(), vec![Label::new("a", "b")], 5).unwrap();
    s.step(Event::Wake { now_ms: 1, value: 1 });
    assert_eq!(
        s.step(Event::Sent(Response::Status(503))),
        Action::Sleep { millis: 5, failure: Some(PushError::Status(503)) }
    );
    assert_eq!(s.step(Event::Wake { now_ms: 2, value: 1 }), Action::Send("m{a=\"b\"} 1 2".to_string()));
}

#[test]
fn cancel_stops_for_good() {
    let mut s = scheduler();
    assert_eq!(s.step(Event::Cancel), Action::Stop);
    assert_eq!(s.phase(), Phase::Stopped);
    assert_eq!(s.step(Event::Wake { now_ms: 1, value: 1 }), Action::Stop);
    assert_eq!(s.step(Event::Sent(Response::Status(200))), Action::Stop);
    assert_eq!(s.phase(), Phase::Stopped);

    let mut pushing = scheduler();
    pushing.step(Event::Wake { now_ms: 1, value: 1 });
    assert_eq!(pushing.step(Event::Cancel), Action::Stop);
    assert_eq!(pushing.phase(), Phase::Stopped);
}

#[test]
fn events_out_of_phase_change_nothing() {
    let mut s = scheduler();
    assert_eq!(s.step(Event::Sent(Response::Status(200))), Action::Wait);
    assert_eq!(s.phase(), Phase::Sleeping);
    s.step(Event::Wake { now_ms: 1, value: 1 });
    assert_eq!(s.step(Event::Wake { now_ms: 2, value: 2 }), Action::Wait);
    assert_eq!(s.phase(), Phase::Pushing);
}

#[test]
fn permanent_failure_never_stops_the_loop() {
    let mut s = scheduler();
    for tick in 0..50u64 {
        let sent = s.step(Event::Wake { now_ms: tick, value: tick });
        assert!(matches!(sent, Action::Send(_)));
        let slept = s.step(Event::Sent(Response::Failed));
        assert_eq!(
            slept,
            Action::Sleep { millis: DEFAULT_INTERVAL_MS, failure: Some(PushError::Transport) }
        );
        assert_eq!(s.phase(), Phase::Sleeping);
    }
}
