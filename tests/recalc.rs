use siapla::recalc::{pick_event, LoopAction, LoopEvent, LoopState};

fn run(mut s: LoopState, events: &[(LoopEvent, u64)]) -> (LoopState, usize) {
    let mut n = 0;
    for (e, t) in events {
        let (next, a) = s.step(*e, *t);
        if a == LoopAction::Recalculate {
            n += 1;
        }
        s = next;
    }
    (s, n)
}

#[test]
fn modifications_are_coalesced() {
    let s = LoopState { deadline: None };
    let events: Vec<(LoopEvent, u64)> = (0..5).map(|i| (LoopEvent::Modified, 10 + i * 30)).collect();
    let (s, n) = run(s, &events);
    assert_eq!(n, 0);
    assert_eq!(s.deadline, Some(130 + 300));
    assert!(!s.timer_due(429));
    let (s, n) = run(s, &[(LoopEvent::Timer, 430)]);
    assert_eq!(n, 1);
    assert_eq!(s.deadline, None);
}

#[test]
fn manual_trigger_runs_at_once_and_disarms() {
    let s = LoopState { deadline: None };
    let (s, n) = run(s, &[(LoopEvent::Modified, 0), (LoopEvent::Manual, 10)]);
    assert_eq!(n, 1);
    assert_eq!(s.deadline, None);
    let (_, n) = run(s, &[(LoopEvent::Timer, 300)]);
    assert_eq!(n, 0);
}

#[test]
fn first_run_happens_at_start() {
    let s = LoopState::new(5);
    assert!(s.timer_due(5));
    assert_eq!(s.step(LoopEvent::Timer, 5).1, LoopAction::Recalculate);
}

#[test]
fn closed_channels_stop() {
    let s = LoopState::new(0);
    assert_eq!(s.step(LoopEvent::ManualClosed, 1).1, LoopAction::Stop);
    assert_eq!(s.step(LoopEvent::ModifyClosed, 1).1, LoopAction::Stop);
}

#[test]
fn manual_has_precedence() {
    assert_eq!(pick_event(Some(true), Some(true), true), Some(LoopEvent::Manual));
    assert_eq!(pick_event(None, Some(true), true), Some(LoopEvent::Modified));
    assert_eq!(pick_event(None, None, true), Some(LoopEvent::Timer));
    assert_eq!(pick_event(None, None, false), None);
    assert_eq!(pick_event(Some(false), None, false), Some(LoopEvent::ManualClosed));
}
