use asciimation::schedule::{sleep_time, Action, Phase, Scheduler, Timing};

const TICK: u64 = 16_000;

fn started(action: Action) -> Option<usize> {
    match action {
        Action::Render { index, phase: Phase::Starting, .. } => Some(index),
        _ => None,
    }
}

#[test]
fn playlist_of_two_alternates() {
    let timing = Timing { run_duration: TICK, fade_duration: 0, frame_budget: TICK };
    let mut s = Scheduler::new(timing, 2);
    let mut invoked = Vec::new();
    for t in 0..2u64 {
        match s.tick(t * TICK, false) {
            Action::Render { index, .. } => invoked.push(index),
            Action::Stop => panic!("no stop was asked"),
        }
    }
    assert_eq!(invoked, vec![0, 1]);
    for t in 2..4u64 {
        match s.tick(t * TICK, false) {
            Action::Render { index, .. } => invoked.push(index),
            Action::Stop => panic!("no stop was asked"),
        }
    }
    assert_eq!(invoked, vec![0, 1, 0, 1]);
}

#[test]
fn runs_start_and_fade() {
    let timing = Timing { run_duration: 100, fade_duration: 40, frame_budget: 10 };
    let mut s = Scheduler::new(timing, 3);
    assert_eq!(started(s.tick(0, false)), Some(0));
    assert_eq!(s.tick(50, false), Action::Render { index: 0, phase: Phase::Running, fade: None });
    assert_eq!(
        s.tick(80, false),
        Action::Render { index: 0, phase: Phase::FadingOut, fade: Some(3000) }
    );
    assert_eq!(started(s.tick(100, false)), Some(1));
    assert_eq!(started(s.tick(230, false)), Some(2));
    assert_eq!(started(s.tick(330, false)), Some(0));
}

#[test]
fn stop_request_ends_loop() {
    let timing = Timing { run_duration: 100, fade_duration: 40, frame_budget: 10 };
    let mut s = Scheduler::new(timing, 1);
    assert_eq!(s.tick(0, true), Action::Stop);
    assert_eq!(started(s.tick(5, false)), Some(0));
}

#[test]
fn sleep_fills_budget_only() {
    assert_eq!(sleep_time(16_000, 4_000), 12_000);
    assert_eq!(sleep_time(16_000, 16_000), 0);
    assert_eq!(sleep_time(16_000, 20_000), 0);
}

#[test]
fn time_left_counts_down_within_a_run() {
    let timing = Timing { run_duration: 100, fade_duration: 0, frame_budget: 10 };
    let mut s = Scheduler::new(timing, 2);
    assert_eq!(s.time_left(0), 0);
    s.tick(0, false);
    assert_eq!(s.time_left(30), 70);
    s.tick(100, false);
    assert_eq!(s.time_left(130), 70);
}
