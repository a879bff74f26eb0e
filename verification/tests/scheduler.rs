use moat::scheduler::{
    Action, CycleOutcome, Event, Phase, Scheduler, DEFAULT_INTERVAL_SECS,
};
use tokio::sync::watch;

fn idle() -> Scheduler {
    let mut s = Scheduler::new();
    assert_eq!(s.on_event(Event::Started), Action::RunCycle);
    assert_eq!(s.on_event(Event::CycleFinished(CycleOutcome::Completed)), Action::Wait);
    s
}

#[test]
fn default_interval_is_ten_seconds() {
    assert_eq!(DEFAULT_INTERVAL_SECS, 10);
    assert_eq!(Scheduler::new().interval_secs(), 10);
    assert_eq!(Scheduler::with_interval(3).map(|s| s.interval_secs()), Some(3));
    assert!(Scheduler::with_interval(0).is_none());
}

#[test]
fn first_cycle_runs_at_once() {
    let mut s = Scheduler::new();
    assert_eq!(s.phase(), Phase::Starting);
    assert_eq!(s.on_event(Event::Started), Action::RunCycle);
    assert_eq!(s.phase(), Phase::Running);
}

#[test]
fn tick_starts_a_cycle_when_idle() {
    let mut s = idle();
    assert_eq!(s.phase(), Phase::Idle);
    assert_eq!(s.on_event(Event::Tick), Action::RunCycle);
    assert_eq!(s.phase(), Phase::Running);
    assert_eq!(s.on_event(Event::CycleFinished(CycleOutcome::Completed)), Action::Wait);
    assert_eq!(s.phase(), Phase::Idle);
}

#[test]
fn ticks_during_a_cycle_are_dropped() {
    let mut s = idle();
    assert_eq!(s.on_event(Event::Tick), Action::RunCycle);
    assert_eq!(s.on_event(Event::Tick), Action::KeepRunning);
    assert_eq!(s.on_event(Event::Tick), Action::KeepRunning);
    assert_eq!(s.on_event(Event::CycleFinished(CycleOutcome::Completed)), Action::Wait);
    assert_eq!(s.phase(), Phase::Idle);
    assert_eq!(s.on_event(Event::Tick), Action::RunCycle);
}

#[test]
fn failed_cycle_returns_to_idle() {
    let mut s = Scheduler::new();
    s.on_event(Event::Started);
    assert_eq!(s.on_event(Event::CycleFinished(CycleOutcome::Failed)), Action::Wait);
    assert_eq!(s.phase(), Phase::Idle);
    assert_eq!(s.on_event(Event::Tick), Action::RunCycle);
}

#[test]
fn shutdown_while_waiting_stops_without_a_cycle() {
    let mut s = idle();
    assert_eq!(s.on_event(Event::Shutdown(true)), Action::Stop);
    assert_eq!(s.phase(), Phase::Stopped);
    assert_eq!(s.on_event(Event::Tick), Action::Stop);
    assert_eq!(s.on_event(Event::Started), Action::Stop);
    assert_eq!(s.phase(), Phase::Stopped);
}

#[test]
fn shutdown_during_a_cycle_lets_it_finish() {
    let mut s = idle();
    assert_eq!(s.on_event(Event::Tick), Action::RunCycle);
    assert_eq!(s.on_event(Event::Shutdown(true)), Action::KeepRunning);
    assert_eq!(s.phase(), Phase::Running);
    assert!(s.is_stopping());
    assert_eq!(s.on_event(Event::Tick), Action::KeepRunning);
    assert_eq!(s.on_event(Event::CycleFinished(CycleOutcome::Completed)), Action::Stop);
    assert_eq!(s.phase(), Phase::Stopped);
}

#[test]
fn shutdown_is_never_taken_back() {
    let mut s = idle();
    s.on_event(Event::Tick);
    s.on_event(Event::Shutdown(true));
    assert_eq!(s.on_event(Event::Shutdown(false)), Action::KeepRunning);
    assert!(s.is_stopping());
    assert_eq!(s.on_event(Event::CycleFinished(CycleOutcome::Failed)), Action::Stop);
    assert_eq!(s.on_event(Event::Shutdown(false)), Action::Stop);
    assert_eq!(s.phase(), Phase::Stopped);
}

#[test]
fn a_signal_that_is_not_set_keeps_the_scheduler_waiting() {
    let mut s = idle();
    assert_eq!(s.on_event(Event::Shutdown(false)), Action::Wait);
    assert_eq!(s.phase(), Phase::Idle);
    assert!(!s.is_stopping());
    assert_eq!(s.on_event(Event::CycleFinished(CycleOutcome::Completed)), Action::Wait);
    assert_eq!(s.phase(), Phase::Idle);
}

#[test]
fn shutdown_before_start_still_runs_the_first_cycle_only() {
    let mut s = Scheduler::new();
    assert_eq!(s.on_event(Event::Shutdown(true)), Action::Wait);
    assert_eq!(s.on_event(Event::Tick), Action::Wait);
    assert_eq!(s.phase(), Phase::Starting);
    assert_eq!(s.on_event(Event::Started), Action::RunCycle);
    assert_eq!(s.on_event(Event::CycleFinished(CycleOutcome::Completed)), Action::Stop);
    assert_eq!(s.phase(), Phase::Stopped);
}

#[test]
fn partial_failure_leaves_the_scheduler_idle() {
    let mut s = Scheduler::new();
    assert_eq!(s.on_event(Event::Started), Action::RunCycle);
    assert_eq!(s.on_event(Event::CycleFinished(CycleOutcome::Completed)), Action::Wait);
    assert_eq!(s.phase(), Phase::Idle);
    assert_ne!(s.phase(), Phase::Stopped);
}

#[test]
fn observing_a_signal_that_is_off_keeps_waiting() {
    let (_tx, rx) = watch::channel(false);
    let mut s = idle();
    assert_eq!(s.observe(&rx), Action::Wait);
    assert_eq!(s.phase(), Phase::Idle);
    assert!(!s.is_stopping());
}

#[test]
fn observing_a_signal_that_is_on_stops_the_idle_scheduler() {
    let (tx, rx) = watch::channel(false);
    let mut s = idle();
    assert_eq!(s.observe(&rx), Action::Wait);
    tx.send(true).unwrap();
    assert_eq!(s.observe(&rx), Action::Stop);
    assert_eq!(s.phase(), Phase::Stopped);
}

#[test]
fn observing_the_signal_during_a_cycle_defers_the_stop() {
    let (tx, rx) = watch::channel(false);
    let mut s = idle();
    assert_eq!(s.on_event(Event::Tick), Action::RunCycle);
    tx.send(true).unwrap();
    assert_eq!(s.observe(&rx), Action::KeepRunning);
    tx.send(false).unwrap();
    assert_eq!(s.observe(&rx), Action::KeepRunning);
    assert!(s.is_stopping());
    assert_eq!(s.on_event(Event::CycleFinished(CycleOutcome::Completed)), Action::Stop);
}

#[test]
fn the_signal_is_read_even_after_the_sender_is_gone() {
    let (tx, rx) = watch::channel(true);
    drop(tx);
    let mut s = idle();
    assert_eq!(s.observe(&rx), Action::Stop);
}
