use drm_monitor::key::ConnectorKey;
use drm_monitor::reconcile::{CycleAction, Reconciler};
use drm_monitor::state::ConnectorState::{Connected, Disconnected, Unknown};
use drm_monitor::state::{batch_requests_snapshot, ConnectorState, EventKind};

#[test]
fn first_cycle_always_snapshots() {
    let r = Reconciler::new(100);
    assert_eq!(r.next_action(&Vec::new()), CycleAction::Snapshot);
    assert_eq!(r.next_action(&vec![EventKind::Remove]), CycleAction::Snapshot);
}

#[test]
fn only_add_and_change_wake_the_loop() {
    let mut r = Reconciler::new(100);
    r.run_cycle(Some(Vec::new()), 0);
    assert_eq!(r.next_action(&Vec::new()), CycleAction::SweepOnly);
    let quiet = vec![EventKind::Remove, EventKind::Bind, EventKind::Unbind, EventKind::Unknown];
    assert_eq!(r.next_action(&quiet), CycleAction::SweepOnly);
    assert_eq!(r.next_action(&vec![EventKind::Bind, EventKind::Add]), CycleAction::Snapshot);
    assert_eq!(r.next_action(&vec![EventKind::Change]), CycleAction::Snapshot);
}

#[test]
fn batch_filter_on_events() {
    assert!(!batch_requests_snapshot(&Vec::new()));
    assert!(!batch_requests_snapshot(&vec![EventKind::Remove, EventKind::Unknown]));
    assert!(batch_requests_snapshot(&vec![EventKind::Unbind, EventKind::Change]));
    assert!(batch_requests_snapshot(&vec![EventKind::Add]));
}

#[test]
fn reconnect_scenario() {
    let a = ConnectorKey::new("/dev/dri/card0", 31);
    let mut r = Reconciler::new(100);
    assert_eq!(r.next_action(&Vec::new()), CycleAction::Snapshot);
    assert_eq!(r.run_cycle(Some(vec![(a, Disconnected)]), 0), vec![(a, Disconnected)]);
    assert_eq!(r.next_action(&vec![EventKind::Change]), CycleAction::Snapshot);
    assert_eq!(r.run_cycle(Some(vec![(a, Connected)]), 50), vec![(a, Connected)]);
    assert!(r.pending_entry(a).is_none());
    assert_eq!(r.next_action(&vec![EventKind::Change]), CycleAction::Snapshot);
    assert!(r.run_cycle(Some(vec![(a, Disconnected)]), 200).is_empty());
    assert_eq!(r.pending_entry(a).map(|e| e.since), Some(200));
    assert_eq!(r.next_action(&Vec::new()), CycleAction::SweepOnly);
    assert!(r.run_cycle(None, 250).is_empty());
    assert_eq!(r.run_cycle(None, 310), vec![(a, Disconnected)]);
    assert!(r.pending_entry(a).is_none());
    assert_eq!(r.baseline_state(a), Some(Disconnected));
}

#[test]
fn sweep_only_keeps_baseline() {
    let a = ConnectorKey::new("/dev/dri/card0", 1);
    let mut r = Reconciler::new(100);
    r.run_cycle(Some(vec![(a, Connected)]), 0);
    assert!(r.run_cycle(None, 10).is_empty());
    assert_eq!(r.baseline_state(a), Some(Connected));
    assert_eq!(r.quiet_period(), 100);
}

#[test]
fn repeated_snapshot_reports_nothing() {
    let a = ConnectorKey::new("/dev/dri/card0", 1);
    let b = ConnectorKey::new("/dev/dri/card0", 2);
    let mut r = Reconciler::new(100);
    let s = vec![(a, Connected), (b, Unknown)];
    assert_eq!(r.run_cycle(Some(s.clone()), 0), s);
    assert!(r.run_cycle(Some(s.clone()), 10).is_empty());
    assert!(r.run_cycle(Some(s), 500).is_empty());
}

#[test]
fn hook_flags() {
    assert_eq!(Connected.hook_flag(), Some(true));
    assert_eq!(Disconnected.hook_flag(), Some(false));
    assert_eq!(ConnectorState::Unknown.hook_flag(), None);
}

#[test]
fn drain_keeps_baseline() {
    let a = ConnectorKey::new("/dev/dri/card0", 1);
    let mut r = Reconciler::new(100);
    r.run_cycle(Some(vec![(a, Connected)]), 0);
    assert!(r.run_cycle(Some(vec![(a, Disconnected)]), 10).is_empty());
    let drained = r.drain_pending();
    assert_eq!(drained.len(), 1);
    assert_eq!(drained[0].key, a);
    assert_eq!(drained[0].state, Disconnected);
    assert!(r.pending_entry(a).is_none());
    assert_eq!(r.baseline_state(a), Some(Disconnected));
    assert!(r.run_cycle(None, 1000).is_empty());
}

#[test]
fn disconnect_reported_after_quiet_period_via_loop() {
    let a = ConnectorKey::new("/dev/dri/card0", 1);
    let b = ConnectorKey::new("/dev/dri/card1", 1);
    let mut r = Reconciler::new(150);
    r.run_cycle(Some(vec![(a, Connected), (b, Connected)]), 0);
    assert!(r.run_cycle(Some(vec![(a, Disconnected), (b, Connected)]), 1000).is_empty());
    assert!(r.run_cycle(None, 1149).is_empty());
    assert_eq!(r.run_cycle(None, 1150), vec![(a, Disconnected)]);
    assert_eq!(r.baseline_state(b), Some(Connected));
}
