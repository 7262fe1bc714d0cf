use crate::detector::{Candidate, ChangeKind, Reading};
use crate::key::ConnectorKey;
use crate::state::ConnectorState;
use vstd::prelude::*;

verus! {

broadcast use vstd::seq_lib::group_filter_ensures;

/// A candidate state that has not yet held for the whole quiet period.
#[derive(Clone, Copy, Debug, PartialEq, Eq, Structural)]
pub struct PendingEntry {
    pub key: ConnectorKey,
    pub state: ConnectorState,
    /// When the candidate was (last) observed, in milliseconds.
    pub since: u64,
}

/// No key has two pending entries.
pub open spec fn pending_keys_unique(p: Seq<PendingEntry>) -> bool {
    forall|i: int, j: int| 0 <= i < j < p.len() ==> p[i].key != p[j].key
}

/// The report that a pending entry becomes once it is due.
pub open spec fn entry_reading(e: PendingEntry) -> Reading {
    (e.key, e.state)
}

/// The report that an immediately admitted candidate becomes.
pub open spec fn candidate_reading(c: Candidate) -> Reading {
    (c.key, c.state)
}

/// The pending entries of every key but `k`.
pub open spec fn drop_key(p: Seq<PendingEntry>, k: ConnectorKey) -> Seq<PendingEntry> {
    p.filter(|e: PendingEntry| e.key != k)
}

/// A candidate that is reported at once: a first observation, or a change to
/// `Connected`.
pub open spec fn is_immediate(c: Candidate) -> bool {
    c.kind == ChangeKind::Initial || c.state == ConnectorState::Connected
}

/// The candidates that are reported at once, in order.
pub open spec fn immediate_reports(cs: Seq<Candidate>) -> Seq<Reading> {
    cs.filter(|c: Candidate| is_immediate(c)).map_values(|c: Candidate| candidate_reading(c))
}

/// An entry that has been pending for at least the quiet period at `now`.
pub open spec fn is_due(e: PendingEntry, now: u64, quiet: u64) -> bool {
    now - e.since >= quiet
}

/// The reports of the entries that are due at `now`, in pending order.
pub open spec fn due_reports(p: Seq<PendingEntry>, now: u64, quiet: u64) -> Seq<Reading> {
    p.filter(|e: PendingEntry| is_due(e, now, quiet)).map_values(|e: PendingEntry| entry_reading(e))
}

/// The entries that stay pending after a sweep at `now`.
pub open spec fn not_due(p: Seq<PendingEntry>, now: u64, quiet: u64) -> Seq<PendingEntry> {
    p.filter(|e: PendingEntry| !is_due(e, now, quiet))
}

/// The pending entries after one candidate at `now`: any entry of its key is
/// superseded, and a candidate that is not reported at once starts a fresh
/// quiet period.
pub open spec fn absorb(p: Seq<PendingEntry>, c: Candidate, now: u64) -> Seq<PendingEntry> {
    let rest = drop_key(p, c.key);
    if is_immediate(c) {
        rest
    } else {
        rest.push(PendingEntry { key: c.key, state: c.state, since: now })
    }
}

/// The pending entries after a cycle's candidates, taken in order.
pub open spec fn pending_after(p: Seq<PendingEntry>, cs: Seq<Candidate>, now: u64) -> Seq<PendingEntry>
    decreases cs.len(),
{
    if cs.len() == 0 {
        p
    } else {
        absorb(pending_after(p, cs.drop_last(), now), cs.last(), now)
    }
}

/// What one cycle reports: the immediate candidates, then the pending
/// entries that are due once the candidates are taken in.
pub open spec fn admit_reports(p: Seq<PendingEntry>, quiet: u64, cs: Seq<Candidate>, now: u64) -> Seq<Reading> {
    immediate_reports(cs) + due_reports(pending_after(p, cs, now), now, quiet)
}

/// Filtering keeps keys apart.
pub proof fn lemma_filter_keys_unique(p: Seq<PendingEntry>, pred: spec_fn(PendingEntry) -> bool)
    requires
        pending_keys_unique(p),
    ensures
        pending_keys_unique(p.filter(pred)),
    decreases p.len(),
{
    reveal(Seq::filter);
    if p.len() > 0 {
        let q = p.drop_last();
        lemma_filter_keys_unique(q, pred);
        let fq = q.filter(pred);
        if pred(p.last()) {
            assert forall|i: int| 0 <= i < fq.len() implies fq[i].key != p.last().key by {
                assert(fq.contains(fq[i]));
                q.lemma_filter_contains_rev(pred, fq[i]);
                let j = choose|j: int| 0 <= j < q.len() && q[j] == fq[i];
                assert(p[j] == q[j]);
            }
            assert(p.filter(pred) == fq.push(p.last()));
        }
    }
}

/// Taking in candidates keeps keys apart.
pub proof fn lemma_pending_after_unique(p: Seq<PendingEntry>, cs: Seq<Candidate>, now: u64)
    requires
        pending_keys_unique(p),
    ensures
        pending_keys_unique(pending_after(p, cs, now)),
    decreases cs.len(),
{
    if cs.len() > 0 {
        let prev = pending_after(p, cs.drop_last(), now);
        lemma_pending_after_unique(p, cs.drop_last(), now);
        let c = cs.last();
        let rest = drop_key(prev, c.key);
        lemma_filter_keys_unique(prev, |e: PendingEntry| e.key != c.key);
        assert forall|i: int| 0 <= i < rest.len() implies rest[i].key != c.key by {
            prev.lemma_filter_pred(|e: PendingEntry| e.key != c.key, i);
        }
    }
}

/// Holds the pending candidates and lets each out once it has held, unchanged,
/// for the quiet period.
///
/// Every later candidate for a key supersedes or clears its pending entry, so
/// a pending entry always holds the latest observation of its key: a
/// reconnect during the quiet period removes a pending disconnect, and a
/// renewed disconnect starts the period again.
pub struct DebounceFilter {
    quiet_period: u64,
    pending: Vec<PendingEntry>,
}

impl DebounceFilter {
    /// The pending entries, in the order they were made.
    pub closed spec fn spec_pending(&self) -> Seq<PendingEntry> {
        self.pending@
    }

    /// The quiet period, in milliseconds.
    pub closed spec fn spec_quiet_period(&self) -> u64 {
        self.quiet_period
    }

    /// The filter's invariant: one pending entry per key at most.
    pub open spec fn wf(&self) -> bool {
        pending_keys_unique(self.spec_pending())
    }

    /// A filter with nothing pending.
    pub fn new(quiet_period: u64) -> (r: DebounceFilter)
        ensures
            r.wf(),
            r.spec_quiet_period() == quiet_period,
            r.spec_pending() == Seq::<PendingEntry>::empty(),
    {
        DebounceFilter { quiet_period, pending: Vec::new() }
    }

    /// The quiet period, in milliseconds.
    pub fn quiet_period(&self) -> (r: u64)
        ensures
            r == self.spec_quiet_period(),
    {
        self.quiet_period
    }

    /// How many candidates are pending.
    pub fn pending_count(&self) -> (r: usize)
        ensures
            r == self.spec_pending().len(),
    {
        self.pending.len()
    }

    /// The pending entry of `key`, if there is one.
    pub fn pending_entry(&self, key: ConnectorKey) -> (r: Option<PendingEntry>)
        requires
            self.wf(),
        ensures
            r matches Some(e) ==> self.spec_pending().contains(e) && e.key == key,
            r is None ==> forall|i: int| 0 <= i < self.spec_pending().len() ==> self.spec_pending()[i].key != key,
    {
        let mut i: usize = 0;
        while i < self.pending.len()
            invariant
                i <= self.pending@.len(),
                forall|j: int| 0 <= j < i ==> self.pending@[j].key != key,
            decreases self.pending@.len() - i,
        {
            if self.pending[i].key == key {
                return Some(self.pending[i]);
            }
            i = i + 1;
        }
        None
    }

    /// Empties the pending set and returns what it held, in order: the
    /// shutdown hook, which leaves it to the caller to report or drop them.
    pub fn drain_pending(&mut self) -> (r: Vec<PendingEntry>)
        requires
            old(self).wf(),
        ensures
            final(self).wf(),
            final(self).spec_quiet_period() == old(self).spec_quiet_period(),
            r@ == old(self).spec_pending(),
            final(self).spec_pending() == Seq::<PendingEntry>::empty(),
    {
        let mut drained: Vec<PendingEntry> = Vec::new();
        std::mem::swap(&mut drained, &mut self.pending);
        drained
    }

    /// Takes in one cycle's candidates at time `now` and returns the stable
    /// changes of the cycle.
    ///
    /// Each candidate first clears any pending entry of its key. Initial
    /// candidates and changes to `Connected` are reported at once; any other
    /// candidate becomes pending from `now`. Then every pending entry that has
    /// been pending for at least the quiet period is reported and leaves.
    pub fn admit_candidates(&mut self, candidates: &Vec<Candidate>, now: u64) -> (r: Vec<Reading>)
        requires
            old(self).wf(),
        ensures
            final(self).wf(),
            final(self).spec_quiet_period() == old(self).spec_quiet_period(),
            r@ == admit_reports(old(self).spec_pending(), old(self).spec_quiet_period(), candidates@, now),
            final(self).spec_pending() == not_due(
                pending_after(old(self).spec_pending(), candidates@, now),
                now,
                old(self).spec_quiet_period(),
            ),
    {
        let ghost p0 = self.pending@;
        let ghost q0 = self.quiet_period;
        let mut out: Vec<Reading> = Vec::new();
        let mut i: usize = 0;
        while i < candidates.len()
            invariant
                i <= candidates@.len(),
                self.pending@ == pending_after(p0, candidates@.take(i as int), now),
                pending_keys_unique(p0),
                self.quiet_period == q0,
                out@ == immediate_reports(candidates@.take(i as int)),
            decreases candidates@.len() - i,
        {
            let c = candidates[i];
            let ghost before = candidates@.take(i as int);
            proof {
                assert(candidates@.take(i as int + 1) =~= before.push(c));
                assert(before.push(c).drop_last() =~= before);
                before.lemma_filter_push(c, |c: Candidate| is_immediate(c));
            }
            self.pending = without_key(&self.pending, c.key);
            if c.kind == ChangeKind::Initial || c.state == ConnectorState::Connected {
                out.push((c.key, c.state));
                proof {
                    let f = before.filter(|c: Candidate| is_immediate(c));
                    assert(f.push(c).map_values(|c: Candidate| candidate_reading(c))
                        =~= f.map_values(|c: Candidate| candidate_reading(c)).push(candidate_reading(c)));
                }
            } else {
                self.pending.push(PendingEntry { key: c.key, state: c.state, since: now });
            }
            i = i + 1;
        }
        proof {
            assert(candidates@.take(candidates@.len() as int) =~= candidates@);
            lemma_pending_after_unique(p0, candidates@, now);
        }
        let kept = sweep(&self.pending, now, self.quiet_period, &mut out);
        proof {
            lemma_filter_keys_unique(self.pending@, |e: PendingEntry| !is_due(e, now, self.quiet_period));
        }
        self.pending = kept;
        out
    }
}

/// The entries of `p` whose key is not `key`.
fn without_key(p: &Vec<PendingEntry>, key: ConnectorKey) -> (r: Vec<PendingEntry>)
    ensures
        r@ == drop_key(p@, key),
{
    let mut r: Vec<PendingEntry> = Vec::new();
    let mut i: usize = 0;
    while i < p.len()
        invariant
            i <= p@.len(),
            r@ == drop_key(p@.take(i as int), key),
        decreases p@.len() - i,
    {
        let e = p[i];
        proof {
            assert(p@.take(i as int + 1) =~= p@.take(i as int).push(e));
            p@.take(i as int).lemma_filter_push(e, |e: PendingEntry| e.key != key);
        }
        if e.key != key {
            r.push(e);
        }
        i = i + 1;
    }
    assert(p@.take(p@.len() as int) =~= p@);
    r
}

/// Appends to `out` the reports of the entries of `p` that are due at `now`,
/// and returns the entries that are not.
fn sweep(p: &Vec<PendingEntry>, now: u64, quiet: u64, out: &mut Vec<Reading>) -> (r: Vec<PendingEntry>)
    ensures
        final(out)@ == old(out)@ + due_reports(p@, now, quiet),
        r@ == not_due(p@, now, quiet),
{
    let ghost out0 = out@;
    let mut kept: Vec<PendingEntry> = Vec::new();
    let mut i: usize = 0;
    while i < p.len()
        invariant
            i <= p@.len(),
            out@ == out0 + due_reports(p@.take(i as int), now, quiet),
            kept@ == not_due(p@.take(i as int), now, quiet),
        decreases p@.len() - i,
    {
        let e = p[i];
        let ghost before = p@.take(i as int);
        proof {
            assert(p@.take(i as int + 1) =~= before.push(e));
            before.lemma_filter_push(e, |e: PendingEntry| is_due(e, now, quiet));
            before.lemma_filter_push(e, |e: PendingEntry| !is_due(e, now, quiet));
        }
        if now >= e.since && now - e.since >= quiet {
            out.push((e.key, e.state));
            proof {
                let f = before.filter(|e: PendingEntry| is_due(e, now, quiet));
                assert(f.push(e).map_values(|e: PendingEntry| entry_reading(e))
                    =~= f.map_values(|e: PendingEntry| entry_reading(e)).push(entry_reading(e)));
            }
        } else {
            kept.push(e);
        }
        i = i + 1;
    }
    assert(p@.take(p@.len() as int) =~= p@);
    kept
}

} // verus!
