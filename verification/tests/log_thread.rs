use woodpecker::log_thread::{
    queue_of, thread_wanted, try_thread_wanted, Action, Event, LogThread, Stage, QUEUE_COUNT, SLEEP_MILLIS,
};

#[test]
fn waits_spins_then_sleeps() {
    let (mut t, a) = LogThread::start();
    assert_eq!(a, Action::StartWait);
    assert_eq!(t.step(Event::Looked(true)), Action::Yield);
    assert_eq!(t.step(Event::Yielded(5_000_000)), Action::Look);
    assert_eq!(t.step(Event::Looked(true)), Action::Yield);
    assert_eq!(t.step(Event::Yielded(10_000_000)), Action::Look);
    assert_eq!(t.step(Event::Looked(true)), Action::Yield);
    assert_eq!(t.step(Event::Yielded(10_000_001)), Action::Sleep(SLEEP_MILLIS));
    assert_eq!(SLEEP_MILLIS, 500);
    assert_eq!(t.step(Event::Done), Action::StartWait);
    assert_eq!(t.stage(), Stage::Looking { fresh: true });
}

#[test]
fn a_full_round_drains_again() {
    let (mut t, _) = LogThread::start();
    assert_eq!(t.step(Event::Looked(false)), Action::Pop(0));
    for i in 1..QUEUE_COUNT {
        assert_eq!(t.step(Event::Popped(true)), Action::Pop(i));
    }
    assert_eq!(t.step(Event::Popped(true)), Action::Publish(64));
    assert_eq!(t.step(Event::Done), Action::Rest);
    assert_eq!(t.step(Event::Done), Action::Pop(0));
}

#[test]
fn a_partial_round_goes_back_to_waiting() {
    let (mut t, _) = LogThread::start();
    assert_eq!(t.step(Event::Looked(false)), Action::Pop(0));
    for i in 1..QUEUE_COUNT {
        assert_eq!(t.step(Event::Popped(i % 3 == 0)), Action::Pop(i));
    }
    // queues 2, 5, ..., 62 gave a record, and so did the last one
    assert_eq!(t.step(Event::Popped(true)), Action::Publish(22));
    assert_eq!(t.step(Event::Done), Action::StartWait);
}

#[test]
fn an_unrelated_event_changes_nothing() {
    let (mut t, _) = LogThread::start();
    assert_eq!(t.step(Event::Popped(true)), Action::StartWait);
    assert_eq!(t.step(Event::Done), Action::StartWait);
    assert_eq!(t.step(Event::Looked(false)), Action::Pop(0));
    assert_eq!(t.step(Event::Yielded(1)), Action::Pop(0));
    assert_eq!(t.stage(), Stage::Draining { next: 0, received: 0 });
}

#[test]
fn thread_setting_from_environment() {
    assert!(thread_wanted(Some("yes"), false));
    assert!(thread_wanted(Some("Y"), false));
    assert!(thread_wanted(Some("1"), false));
    assert!(!thread_wanted(Some("no"), true));
    assert!(!thread_wanted(Some("0"), true));
    assert!(thread_wanted(None, true));
    assert!(!thread_wanted(None, false));
    assert_eq!(try_thread_wanted(Some("Yes"), false), Some(true));
    assert_eq!(try_thread_wanted(Some(""), true), None);
    assert_eq!(try_thread_wanted(Some("Élan"), true), None);
    assert_eq!(try_thread_wanted(Some("İ"), true), Some(false));
    assert_eq!(try_thread_wanted(None, true), Some(true));
}

#[test]
fn threads_spread_over_the_queues() {
    assert_eq!(queue_of(0), 0);
    assert_eq!(queue_of(63), 63);
    assert_eq!(queue_of(64), 0);
    assert_eq!(queue_of(130), 2);
}
