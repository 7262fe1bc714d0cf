use drm_monitor::debounce::{DebounceFilter, PendingEntry};
use drm_monitor::detector::{Candidate, ChangeDetector, ChangeKind};
use drm_monitor::key::ConnectorKey;
use drm_monitor::state::ConnectorState::{self, Connected, Disconnected, Unknown};

fn key(id: u32) -> ConnectorKey {
    ConnectorKey::new("/dev/dri/card0", id)
}

fn initial(id: u32, state: ConnectorState) -> Candidate {
    Candidate { key: key(id), state, kind: ChangeKind::Initial }
}

fn transition(id: u32, state: ConnectorState) -> Candidate {
    Candidate { key: key(id), state, kind: ChangeKind::Transition }
}

#[test]
fn initial_candidates_reported_at_once() {
    let mut f = DebounceFilter::new(100);
    let r = f.admit_candidates(&vec![initial(1, Connected), initial(2, Disconnected), initial(3, Unknown)], 0);
    assert_eq!(r, vec![(key(1), Connected), (key(2), Disconnected), (key(3), Unknown)]);
    assert_eq!(f.pending_count(), 0);
}

#[test]
fn first_snapshot_reported_through_detector() {
    let mut d = ChangeDetector::new();
    let mut f = DebounceFilter::new(300);
    let s = vec![(key(1), Disconnected), (key(2), Connected)];
    let r = f.admit_candidates(&d.diff(s.clone()), 5);
    assert_eq!(r, s);
}

#[test]
fn connect_fast_path() {
    let mut d = ChangeDetector::new();
    let mut f = DebounceFilter::new(100);
    f.admit_candidates(&d.diff(vec![(key(1), Disconnected)]), 0);
    let r = f.admit_candidates(&d.diff(vec![(key(1), Connected)]), 40);
    assert_eq!(r, vec![(key(1), Connected)]);
    assert_eq!(f.pending_count(), 0);
}

#[test]
fn disconnect_debounce() {
    let mut f = DebounceFilter::new(100);
    assert!(f.admit_candidates(&vec![transition(1, Disconnected)], 1000).is_empty());
    assert_eq!(
        f.pending_entry(key(1)),
        Some(PendingEntry { key: key(1), state: Disconnected, since: 1000 })
    );
    assert!(f.admit_candidates(&Vec::new(), 1050).is_empty());
    assert!(f.admit_candidates(&Vec::new(), 1099).is_empty());
    assert_eq!(f.admit_candidates(&Vec::new(), 1100), vec![(key(1), Disconnected)]);
    assert_eq!(f.pending_entry(key(1)), None);
    assert!(f.admit_candidates(&Vec::new(), 5000).is_empty());
}

#[test]
fn late_sweep_still_reports() {
    let mut f = DebounceFilter::new(100);
    f.admit_candidates(&vec![transition(1, Disconnected)], 0);
    assert_eq!(f.admit_candidates(&Vec::new(), 100_000), vec![(key(1), Disconnected)]);
}

#[test]
fn flicker_absorbed() {
    let mut f = DebounceFilter::new(100);
    assert!(f.admit_candidates(&vec![transition(1, Disconnected)], 0).is_empty());
    assert_eq!(f.admit_candidates(&vec![transition(1, Connected)], 10), vec![(key(1), Connected)]);
    assert_eq!(f.pending_count(), 0);
    assert!(f.admit_candidates(&Vec::new(), 100).is_empty());
    assert!(f.admit_candidates(&Vec::new(), 1000).is_empty());
}

#[test]
fn new_candidate_restarts_quiet_period() {
    let mut f = DebounceFilter::new(100);
    f.admit_candidates(&vec![transition(1, Disconnected)], 0);
    assert!(f.admit_candidates(&vec![transition(1, Unknown)], 60).is_empty());
    assert_eq!(f.pending_entry(key(1)), Some(PendingEntry { key: key(1), state: Unknown, since: 60 }));
    assert!(f.admit_candidates(&Vec::new(), 120).is_empty());
    assert_eq!(f.admit_candidates(&Vec::new(), 160), vec![(key(1), Unknown)]);
}

#[test]
fn zero_quiet_period_reports_in_same_cycle() {
    let mut f = DebounceFilter::new(0);
    assert_eq!(f.admit_candidates(&vec![transition(1, Disconnected)], 7), vec![(key(1), Disconnected)]);
    assert_eq!(f.pending_count(), 0);
}

#[test]
fn clock_behind_entry_is_not_due() {
    let mut f = DebounceFilter::new(100);
    f.admit_candidates(&vec![transition(1, Disconnected)], 500);
    assert!(f.admit_candidates(&Vec::new(), 10).is_empty());
    assert_eq!(f.pending_count(), 1);
}

#[test]
fn largest_times_do_not_overflow() {
    let mut f = DebounceFilter::new(u64::MAX);
    f.admit_candidates(&vec![transition(1, Disconnected)], 0);
    assert!(f.admit_candidates(&Vec::new(), u64::MAX - 1).is_empty());
    assert_eq!(f.admit_candidates(&Vec::new(), u64::MAX), vec![(key(1), Disconnected)]);
}

#[test]
fn immediate_reports_come_before_promotions() {
    let mut f = DebounceFilter::new(100);
    f.admit_candidates(&vec![transition(1, Disconnected), transition(2, Disconnected)], 0);
    let r = f.admit_candidates(&vec![transition(3, Connected)], 100);
    assert_eq!(r, vec![(key(3), Connected), (key(1), Disconnected), (key(2), Disconnected)]);
    assert_eq!(f.quiet_period(), 100);
}

#[test]
fn keys_on_two_controllers_debounce_apart() {
    let a = ConnectorKey::new("/dev/dri/card0", 1);
    let b = ConnectorKey::new("/dev/dri/card1", 1);
    let mut f = DebounceFilter::new(100);
    f.admit_candidates(&vec![Candidate { key: a, state: Disconnected, kind: ChangeKind::Transition }], 0);
    let r = f.admit_candidates(&vec![Candidate { key: b, state: Connected, kind: ChangeKind::Transition }], 50);
    assert_eq!(r, vec![(b, Connected)]);
    assert_eq!(f.pending_entry(a), Some(PendingEntry { key: a, state: Disconnected, since: 0 }));
    assert_eq!(f.admit_candidates(&Vec::new(), 100), vec![(a, Disconnected)]);
}

#[test]
fn redisconnect_after_reconnect_restarts_quiet_period() {
    let mut f = DebounceFilter::new(100);
    assert!(f.admit_candidates(&vec![transition(1, Disconnected)], 0).is_empty());
    assert_eq!(f.admit_candidates(&vec![transition(1, Connected)], 10), vec![(key(1), Connected)]);
    assert!(f.admit_candidates(&vec![transition(1, Disconnected)], 20).is_empty());
    assert!(f.admit_candidates(&Vec::new(), 100).is_empty());
    assert!(f.admit_candidates(&Vec::new(), 119).is_empty());
    assert_eq!(f.admit_candidates(&Vec::new(), 120), vec![(key(1), Disconnected)]);
}

#[test]
fn initial_candidate_clears_stale_pending_entry() {
    let mut f = DebounceFilter::new(100);
    f.admit_candidates(&vec![transition(1, Disconnected)], 0);
    assert_eq!(f.admit_candidates(&vec![initial(1, Unknown)], 10), vec![(key(1), Unknown)]);
    assert_eq!(f.pending_count(), 0);
    assert!(f.admit_candidates(&Vec::new(), 500).is_empty());
}

#[test]
fn drain_returns_pending_in_order() {
    let mut f = DebounceFilter::new(100);
    f.admit_candidates(&vec![transition(2, Disconnected), transition(1, Unknown)], 5);
    let drained = f.drain_pending();
    assert_eq!(
        drained,
        vec![
            PendingEntry { key: key(2), state: Disconnected, since: 5 },
            PendingEntry { key: key(1), state: Unknown, since: 5 },
        ]
    );
    assert_eq!(f.pending_count(), 0);
    assert!(f.admit_candidates(&Vec::new(), 1000).is_empty());
}
