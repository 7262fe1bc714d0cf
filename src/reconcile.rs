use crate::debounce::{admit_reports, not_due, pending_after, pending_keys_unique, DebounceFilter, PendingEntry};
use crate::detector::{candidates_of, map_of, ChangeDetector, Reading};
use crate::key::ConnectorKey;
use crate::state::{batch_requests_snapshot, is_wake_event, ConnectorState, EventKind};
use vstd::prelude::*;

verus! {

/// What the driver of the loop must do for the next cycle.
#[derive(Clone, Copy, Debug, PartialEq, Eq, Structural)]
pub enum CycleAction {
    /// Query every controller and hand the state vector to `run_cycle`.
    Snapshot,
    /// Query nothing: the cycle only lets due pending entries out.
    SweepOnly,
}

/// The decisions of the reconciliation loop: the baseline, the pending
/// candidates, and whether the first (unconditional) snapshot was taken.
///
/// The loop itself runs outside: after each bounded wait it asks
/// `next_action` what to do with the events that arrived, performs it, and
/// hands the outcome to `run_cycle`, whose reports go to the notification
/// sink. Every wait ends in a cycle, so pending entries come due even when
/// no hardware event arrives.
pub struct Reconciler {
    detector: ChangeDetector,
    filter: DebounceFilter,
    started: bool,
}

impl Reconciler {
    /// The baseline.
    pub closed spec fn spec_baseline(&self) -> Map<ConnectorKey, ConnectorState> {
        self.detector@
    }

    /// The pending entries.
    pub closed spec fn spec_pending(&self) -> Seq<PendingEntry> {
        self.filter.spec_pending()
    }

    /// The quiet period, in milliseconds.
    pub closed spec fn spec_quiet_period(&self) -> u64 {
        self.filter.spec_quiet_period()
    }

    /// Whether a snapshot was taken yet.
    pub closed spec fn spec_started(&self) -> bool {
        self.started
    }

    /// The invariant: one pending entry per key at most.
    pub open spec fn wf(&self) -> bool {
        pending_keys_unique(self.spec_pending())
    }

    /// A loop that has seen nothing yet.
    pub fn new(quiet_period: u64) -> (r: Reconciler)
        ensures
            r.wf(),
            !r.spec_started(),
            r.spec_quiet_period() == quiet_period,
            r.spec_baseline() == Map::<ConnectorKey, ConnectorState>::empty(),
            r.spec_pending() == Seq::<PendingEntry>::empty(),
    {
        Reconciler { detector: ChangeDetector::new(), filter: DebounceFilter::new(quiet_period), started: false }
    }

    /// The quiet period, in milliseconds.
    pub fn quiet_period(&self) -> (r: u64)
        ensures
            r == self.spec_quiet_period(),
    {
        self.filter.quiet_period()
    }

    /// The baseline state of `key`, if it has one.
    pub fn baseline_state(&self, key: ConnectorKey) -> (r: Option<ConnectorState>)
        ensures
            r == (if self.spec_baseline().contains_key(key) {
                Some(self.spec_baseline()[key])
            } else {
                None::<ConnectorState>
            }),
    {
        self.detector.baseline_state(key)
    }

    /// The pending entry of `key`, if there is one.
    pub fn pending_entry(&self, key: ConnectorKey) -> (r: Option<PendingEntry>)
        requires
            self.wf(),
        ensures
            r matches Some(e) ==> self.spec_pending().contains(e) && e.key == key,
            r is None ==> forall|i: int| 0 <= i < self.spec_pending().len() ==> self.spec_pending()[i].key != key,
    {
        self.filter.pending_entry(key)
    }

    /// Empties the pending set and returns what it held, for a clean
    /// shutdown; the baseline stays.
    pub fn drain_pending(&mut self) -> (r: Vec<PendingEntry>)
        requires
            old(self).wf(),
        ensures
            final(self).wf(),
            final(self).spec_quiet_period() == old(self).spec_quiet_period(),
            final(self).spec_started() == old(self).spec_started(),
            final(self).spec_baseline() == old(self).spec_baseline(),
            r@ == old(self).spec_pending(),
            final(self).spec_pending() == Seq::<PendingEntry>::empty(),
    {
        self.filter.drain_pending()
    }

    /// What the next cycle must do, given the events of the last wait: the
    /// first cycle and any cycle after an `Add` or `Change` event take a
    /// snapshot; the others only sweep.
    pub fn next_action(&self, events: &Vec<EventKind>) -> (r: CycleAction)
        ensures
            r == (if !self.spec_started() || exists|i: int| 0 <= i < events@.len() && is_wake_event(#[trigger] events@[i]) {
                CycleAction::Snapshot
            } else {
                CycleAction::SweepOnly
            }),
    {
        if !self.started || batch_requests_snapshot(events) {
            CycleAction::Snapshot
        } else {
            CycleAction::SweepOnly
        }
    }

    /// Runs one cycle at time `now` and returns its stable changes, for the
    /// notification sink.
    ///
    /// With a state vector, the vector is diffed against the baseline (and
    /// becomes the baseline), and the candidates go through the debounce
    /// filter. Without one, the filter only sweeps its due entries.
    pub fn run_cycle(&mut self, snapshot: Option<Vec<Reading>>, now: u64) -> (r: Vec<Reading>)
        requires
            old(self).wf(),
        ensures
            final(self).wf(),
            final(self).spec_quiet_period() == old(self).spec_quiet_period(),
            final(self).spec_started() == (old(self).spec_started() || snapshot is Some),
            ({
                let cands = match snapshot {
                    Some(s) => candidates_of(old(self).spec_baseline(), s@),
                    None => Seq::empty(),
                };
                let quiet = old(self).spec_quiet_period();
                &&& r@ == admit_reports(old(self).spec_pending(), quiet, cands, now)
                &&& final(self).spec_pending() == not_due(pending_after(old(self).spec_pending(), cands, now), now, quiet)
            }),
            final(self).spec_baseline() == match snapshot {
                Some(s) => map_of(s@),
                None => old(self).spec_baseline(),
            },
    {
        let candidates = match snapshot {
            Some(states) => {
                self.started = true;
                self.detector.diff(states)
            },
            None => Vec::new(),
        };
        self.filter.admit_candidates(&candidates, now)
    }
}

} // verus!
