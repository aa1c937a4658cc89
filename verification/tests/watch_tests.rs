use memtrace::watch::{WatchAction, WatchLoop, WatchPhase};

#[test]
fn first_step_takes_a_snapshot() {
    let mut w = WatchLoop::new(2);
    assert_eq!(w.phase, WatchPhase::Ready);
    assert_eq!(w.next(true), WatchAction::Capture);
}

#[test]
fn law_snapshot_period() {
    let mut w = WatchLoop::new(2);
    assert_eq!(w.next(true), WatchAction::Capture);
    w.captured(true);
    for _ in 0..20 {
        assert_eq!(w.next(true), WatchAction::Sleep);
    }
    assert_eq!(w.next(true), WatchAction::Capture);
}

#[test]
fn zero_interval_captures_back_to_back() {
    let mut w = WatchLoop::new(0);
    assert_eq!(w.next(true), WatchAction::Capture);
    w.captured(true);
    assert_eq!(w.next(true), WatchAction::Capture);
}

#[test]
fn law_interrupt_stops() {
    let mut w = WatchLoop::new(1);
    assert_eq!(w.next(true), WatchAction::Capture);
    w.captured(true);
    assert_eq!(w.next(true), WatchAction::Sleep);
    assert_eq!(w.next(false), WatchAction::Stop);
    assert_eq!(w.phase, WatchPhase::Stopped);
    assert_eq!(w.next(true), WatchAction::Stop);
    let mut fresh = WatchLoop::new(1);
    assert_eq!(fresh.next(false), WatchAction::Stop);
}

#[test]
fn law_failure_stops() {
    let mut w = WatchLoop::new(3);
    assert_eq!(w.next(true), WatchAction::Capture);
    w.captured(false);
    assert_eq!(w.phase, WatchPhase::Stopped);
    assert_eq!(w.next(true), WatchAction::Stop);
}
