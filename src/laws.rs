//! Properties of the detector and the debounce filter across cycles.

use crate::debounce::{
    admit_reports, candidate_reading, drop_key, due_reports, entry_reading, immediate_reports, is_due,
    is_immediate, not_due, pending_after, pending_keys_unique, PendingEntry,
};
use crate::detector::{candidate_for, candidates_of, keys_unique, lemma_map_of_lookup, map_of, Candidate, ChangeKind, Reading};
use crate::key::{controller_hash, key_of, ConnectorKey};
use crate::snapshot::{controller_part, flatten_readings, readings_of, ControllerReading};
use crate::state::ConnectorState;
use vstd::prelude::*;

verus! {

broadcast use vstd::seq_lib::group_filter_ensures;

/// Every candidate comes from a reading of the snapshot.
proof fn lemma_candidate_source(base: Map<ConnectorKey, ConnectorState>, s: Seq<Reading>, c: Candidate)
    requires
        candidates_of(base, s).contains(c),
    ensures
        exists|j: int| 0 <= j < s.len() && candidate_for(base, #[trigger] s[j]) == Some(c),
    decreases s.len(),
{
    let rest = candidates_of(base, s.drop_last());
    if rest.contains(c) {
        lemma_candidate_source(base, s.drop_last(), c);
        let j = choose|j: int| 0 <= j < s.drop_last().len() && candidate_for(base, #[trigger] s.drop_last()[j]) == Some(c);
        assert(s[j] == s.drop_last()[j]);
    } else {
        assert(candidate_for(base, s[s.len() - 1]) == Some(c));
    }
}

/// Every reading that differs from the baseline gives its candidate.
proof fn lemma_candidate_present(base: Map<ConnectorKey, ConnectorState>, s: Seq<Reading>, j: int)
    requires
        0 <= j < s.len(),
        candidate_for(base, s[j]) is Some,
    ensures
        candidates_of(base, s).contains(candidate_for(base, s[j])->Some_0),
    decreases s.len(),
{
    let rest = candidates_of(base, s.drop_last());
    let c = candidate_for(base, s[j])->Some_0;
    if j == s.len() - 1 {
        assert(candidates_of(base, s) == rest.push(c));
        assert(candidates_of(base, s)[rest.len() as int] == c);
    } else {
        assert(s.drop_last()[j] == s[j]);
        lemma_candidate_present(base, s.drop_last(), j);
        let i = choose|i: int| 0 <= i < rest.len() && rest[i] == c;
        match candidate_for(base, s.last()) {
            Some(d) => {
                assert(candidates_of(base, s)[i] == c);
            },
            None => {},
        }
    }
}

/// With unique keys, every candidate of key `k` is the one of `k`'s reading.
proof fn lemma_candidates_of_key(base: Map<ConnectorKey, ConnectorState>, s: Seq<Reading>, j: int)
    requires
        keys_unique(s),
        0 <= j < s.len(),
    ensures
        forall|c: Candidate|
            candidates_of(base, s).contains(c) && c.key == s[j].0 ==> candidate_for(base, s[j]) == Some(c),
{
    assert forall|c: Candidate| candidates_of(base, s).contains(c) && c.key == s[j].0 implies candidate_for(
        base,
        s[j],
    ) == Some(c) by {
        lemma_candidate_source(base, s, c);
        let l = choose|l: int| 0 <= l < s.len() && candidate_for(base, #[trigger] s[l]) == Some(c);
        if l != j {
            assert(s[l].0 == c.key);
        }
    }
}

/// Candidates of other keys leave the pending entries of `k` as they were.
proof fn lemma_pending_other_keys(p: Seq<PendingEntry>, cs: Seq<Candidate>, now: u64, k: ConnectorKey)
    requires
        forall|i: int| 0 <= i < cs.len() ==> (#[trigger] cs[i]).key != k,
    ensures
        forall|x: PendingEntry| x.key == k ==> (pending_after(p, cs, now).contains(x) <==> p.contains(x)),
    decreases cs.len(),
{
    if cs.len() > 0 {
        let c = cs.last();
        assert(cs[cs.len() - 1].key != k);
        assert forall|i: int| 0 <= i < cs.drop_last().len() implies (#[trigger] cs.drop_last()[i]).key != k by {
            assert(cs.drop_last()[i] == cs[i]);
        }
        lemma_pending_other_keys(p, cs.drop_last(), now, k);
        let prev = pending_after(p, cs.drop_last(), now);
        let pred = |e: PendingEntry| e.key != c.key;
        assert forall|x: PendingEntry| x.key == k implies (drop_key(prev, c.key).contains(x) <==> prev.contains(x)) by {
            if prev.contains(x) {
                let i = choose|i: int| 0 <= i < prev.len() && prev[i] == x;
                prev.lemma_filter_contains(pred, i);
            }
            if drop_key(prev, c.key).contains(x) {
                prev.lemma_filter_contains_rev(pred, x);
            }
        }
        if !is_immediate(c) {
            let rest = drop_key(prev, c.key);
            let ne = PendingEntry { key: c.key, state: c.state, since: now };
            assert forall|x: PendingEntry| x.key == k implies (rest.push(ne).contains(x) <==> rest.contains(x)) by {
                if rest.push(ne).contains(x) {
                    let i = choose|i: int| 0 <= i < rest.push(ne).len() && rest.push(ne)[i] == x;
                    if i < rest.len() {
                        assert(rest[i] == x);
                    }
                }
                if rest.contains(x) {
                    let i = choose|i: int| 0 <= i < rest.len() && rest[i] == x;
                    assert(rest.push(ne)[i] == x);
                }
            }
        }
    }
}

/// The entry, if any, that a cycle's candidates leave pending for a key whose
/// candidates are all `c`.
spec fn entry_left_by(c: Candidate, now: u64) -> Option<PendingEntry> {
    if is_immediate(c) {
        None
    } else {
        Some(PendingEntry { key: c.key, state: c.state, since: now })
    }
}

/// Where all candidates of key `c.key` are `c`, and there is one, the pending
/// entries of that key are the one `c` leaves.
proof fn lemma_pending_own_key(p: Seq<PendingEntry>, cs: Seq<Candidate>, now: u64, c: Candidate)
    requires
        cs.contains(c),
        forall|i: int| 0 <= i < cs.len() && (#[trigger] cs[i]).key == c.key ==> cs[i] == c,
    ensures
        forall|x: PendingEntry|
            x.key == c.key ==> (pending_after(p, cs, now).contains(x) <==> entry_left_by(c, now) == Some(x)),
    decreases cs.len(),
{
    let q = cs.drop_last();
    let last = cs.last();
    let prev = pending_after(p, q, now);
    let rest = drop_key(prev, last.key);
    let pred = |e: PendingEntry| e.key != last.key;
    assert(cs.len() > 0);
    assert(pending_after(p, cs, now) == crate::debounce::absorb(prev, last, now));
    if last == c {
        assert forall|x: PendingEntry| x.key == c.key implies !rest.contains(x) by {
            if rest.contains(x) {
                let i = choose|i: int| 0 <= i < rest.len() && rest[i] == x;
                prev.lemma_filter_pred(pred, i);
            }
        }
        if !is_immediate(c) {
            let ne = PendingEntry { key: c.key, state: c.state, since: now };
            assert(rest.push(ne)[rest.len() as int] == ne);
            assert forall|x: PendingEntry| x.key == c.key && rest.push(ne).contains(x) implies x == ne by {
                let i = choose|i: int| 0 <= i < rest.push(ne).len() && rest.push(ne)[i] == x;
                if i < rest.len() {
                    assert(rest[i] == x);
                }
            }
        }
    } else {
        assert(last.key != c.key);
        let i0 = choose|i: int| 0 <= i < cs.len() && cs[i] == c;
        assert(i0 < q.len());
        assert(q[i0] == c);
        assert forall|i: int| 0 <= i < q.len() && (#[trigger] q[i]).key == c.key implies q[i] == c by {
            assert(q[i] == cs[i]);
        }
        lemma_pending_own_key(p, q, now, c);
        assert forall|x: PendingEntry| x.key == c.key implies (rest.contains(x) <==> prev.contains(x)) by {
            if prev.contains(x) {
                let i = choose|i: int| 0 <= i < prev.len() && prev[i] == x;
                prev.lemma_filter_contains(pred, i);
            }
            if rest.contains(x) {
                prev.lemma_filter_contains_rev(pred, x);
            }
        }
        if !is_immediate(last) {
            let ne = PendingEntry { key: last.key, state: last.state, since: now };
            assert forall|x: PendingEntry| x.key == c.key implies (rest.push(ne).contains(x) <==> rest.contains(x)) by {
                if rest.push(ne).contains(x) {
                    let i = choose|i: int| 0 <= i < rest.push(ne).len() && rest.push(ne)[i] == x;
                    if i < rest.len() {
                        assert(rest[i] == x);
                    }
                }
                if rest.contains(x) {
                    let i = choose|i: int| 0 <= i < rest.len() && rest[i] == x;
                    assert(rest.push(ne)[i] == x);
                }
            }
        }
        assert forall|x: PendingEntry| x.key == c.key implies (pending_after(p, cs, now).contains(x)
            <==> entry_left_by(c, now) == Some(x)) by {
            assert(prev.contains(x) <==> entry_left_by(c, now) == Some(x));
        }
    }
}

/// Each immediate report comes from an immediate candidate.
proof fn lemma_immediate_source(cs: Seq<Candidate>, i: int)
    requires
        0 <= i < immediate_reports(cs).len(),
    ensures
        exists|c: Candidate| cs.contains(c) && is_immediate(c) && immediate_reports(cs)[i] == candidate_reading(c),
{
    let pred = |c: Candidate| is_immediate(c);
    let f = cs.filter(pred);
    assert(f.contains(f[i]));
    cs.lemma_filter_contains_rev(pred, f[i]);
    cs.lemma_filter_pred(pred, i);
}

/// Each immediate candidate is reported.
proof fn lemma_immediate_present(cs: Seq<Candidate>, c: Candidate)
    requires
        cs.contains(c),
        is_immediate(c),
    ensures
        immediate_reports(cs).contains(candidate_reading(c)),
{
    let pred = |c: Candidate| is_immediate(c);
    let i = choose|i: int| 0 <= i < cs.len() && cs[i] == c;
    cs.lemma_filter_contains(pred, i);
    let f = cs.filter(pred);
    let j = choose|j: int| 0 <= j < f.len() && f[j] == c;
    assert(immediate_reports(cs)[j] == candidate_reading(c));
}

/// Each due report comes from a due entry.
proof fn lemma_due_source(p: Seq<PendingEntry>, now: u64, quiet: u64, i: int)
    requires
        0 <= i < due_reports(p, now, quiet).len(),
    ensures
        exists|e: PendingEntry| p.contains(e) && is_due(e, now, quiet) && due_reports(p, now, quiet)[i] == entry_reading(e),
{
    let pred = |e: PendingEntry| is_due(e, now, quiet);
    let f = p.filter(pred);
    assert(f.contains(f[i]));
    p.lemma_filter_contains_rev(pred, f[i]);
    p.lemma_filter_pred(pred, i);
    assert(due_reports(p, now, quiet)[i] == entry_reading(f[i]));
    assert(is_due(f[i], now, quiet));
}

/// Each due entry is reported.
proof fn lemma_due_present(p: Seq<PendingEntry>, now: u64, quiet: u64, e: PendingEntry)
    requires
        p.contains(e),
        is_due(e, now, quiet),
    ensures
        due_reports(p, now, quiet).contains(entry_reading(e)),
{
    let pred = |e: PendingEntry| is_due(e, now, quiet);
    let i = choose|i: int| 0 <= i < p.len() && p[i] == e;
    p.lemma_filter_contains(pred, i);
    let f = p.filter(pred);
    let j = choose|j: int| 0 <= j < f.len() && f[j] == e;
    assert(due_reports(p, now, quiet)[j] == entry_reading(e));
}

/// An entry stays pending after a sweep exactly when it is there and not due.
proof fn lemma_not_due_contains(p: Seq<PendingEntry>, now: u64, quiet: u64, e: PendingEntry)
    ensures
        not_due(p, now, quiet).contains(e) <==> (p.contains(e) && !is_due(e, now, quiet)),
{
    let pred = |e: PendingEntry| !is_due(e, now, quiet);
    if p.contains(e) && !is_due(e, now, quiet) {
        let i = choose|i: int| 0 <= i < p.len() && p[i] == e;
        p.lemma_filter_contains(pred, i);
    }
    if not_due(p, now, quiet).contains(e) {
        p.lemma_filter_contains_rev(pred, e);
        let f = p.filter(pred);
        let j = choose|j: int| 0 <= j < f.len() && f[j] == e;
        p.lemma_filter_pred(pred, j);
    }
}

/// Every connector of the very first snapshot is reported in the cycle that
/// takes it, whatever its state and whatever the quiet period: the cycle's
/// reports begin with the snapshot's readings, in order.
pub proof fn first_snapshot_reported_at_once(s: Seq<Reading>, p: Seq<PendingEntry>, quiet: u64, now: u64)
    ensures
        immediate_reports(candidates_of(Map::empty(), s)) == s,
        admit_reports(p, quiet, candidates_of(Map::empty(), s), now).take(s.len() as int) == s,
    decreases s.len(),
{
    let base = Map::<ConnectorKey, ConnectorState>::empty();
    if s.len() > 0 {
        let q = s.drop_last();
        first_snapshot_reported_at_once(q, p, quiet, now);
        let c = Candidate { key: s.last().0, state: s.last().1, kind: ChangeKind::Initial };
        let prev = candidates_of(base, q);
        assert(candidates_of(base, s) == prev.push(c));
        prev.lemma_filter_push(c, |c: Candidate| is_immediate(c));
        let f = prev.filter(|c: Candidate| is_immediate(c));
        assert(f.push(c).map_values(|c: Candidate| candidate_reading(c))
            =~= f.map_values(|c: Candidate| candidate_reading(c)).push(candidate_reading(c)));
        assert(q.push(s.last()) =~= s);
    } else {
        assert(immediate_reports(candidates_of(base, s)) =~= s);
    }
    let r = admit_reports(p, quiet, candidates_of(base, s), now);
    assert(r.take(s.len() as int) =~= s);
}

/// Diffing a snapshot against itself gives no candidates: taking the same
/// state vector twice in a row is quiet. The vector's keys must be unique;
/// otherwise the later reading of a key becomes its baseline and the earlier
/// one differs from it.
pub proof fn repeated_snapshot_is_quiet(s: Seq<Reading>)
    requires
        keys_unique(s),
    ensures
        candidates_of(map_of(s), s) == Seq::<Candidate>::empty(),
{
    let base = map_of(s);
    assert forall|j: int| 0 <= j < s.len() implies base.contains_key(#[trigger] s[j].0) && base[s[j].0] == s[j].1 by {
        lemma_map_of_lookup(s, s[j].0);
    }
    lemma_candidates_quiet(base, s);
}

proof fn lemma_candidates_quiet(base: Map<ConnectorKey, ConnectorState>, t: Seq<Reading>)
    requires
        forall|j: int| 0 <= j < t.len() ==> base.contains_key(#[trigger] t[j].0) && base[t[j].0] == t[j].1,
    ensures
        candidates_of(base, t) == Seq::<Candidate>::empty(),
    decreases t.len(),
{
    if t.len() > 0 {
        assert forall|j: int| 0 <= j < t.drop_last().len() implies base.contains_key(#[trigger] t.drop_last()[j].0)
            && base[t.drop_last()[j].0] == t.drop_last()[j].1 by {
            assert(t.drop_last()[j] == t[j]);
        }
        lemma_candidates_quiet(base, t.drop_last());
        assert(base.contains_key(t[t.len() - 1].0));
    }
}

/// A connector whose baseline state is `Disconnected` and that a snapshot
/// shows `Connected` is reported `Connected` in that same cycle.
pub proof fn connect_reported_at_once(
    base: Map<ConnectorKey, ConnectorState>,
    s: Seq<Reading>,
    p: Seq<PendingEntry>,
    quiet: u64,
    now: u64,
    k: ConnectorKey,
)
    requires
        base.contains_key(k),
        base[k] == ConnectorState::Disconnected,
        s.contains((k, ConnectorState::Connected)),
    ensures
        admit_reports(p, quiet, candidates_of(base, s), now).contains((k, ConnectorState::Connected)),
{
    let j = choose|j: int| 0 <= j < s.len() && s[j] == (k, ConnectorState::Connected);
    let c = Candidate { key: k, state: ConnectorState::Connected, kind: ChangeKind::Transition };
    assert(candidate_for(base, s[j]) == Some(c));
    lemma_candidate_present(base, s, j);
    let cs = candidates_of(base, s);
    lemma_immediate_present(cs, c);
    let imm = immediate_reports(cs);
    let r = admit_reports(p, quiet, cs, now);
    let i = choose|i: int| 0 <= i < imm.len() && imm[i] == (k, ConnectorState::Connected);
    assert(r[i] == imm[i]);
}

/// A disconnect is held back: where the baseline has `k` connected and a
/// snapshot (with unique keys) shows it disconnected at `now`, and the quiet
/// period is not zero, the cycle reports nothing of `k`, and `k` is left
/// pending as disconnected since `now`.
pub proof fn disconnect_held_back(
    base: Map<ConnectorKey, ConnectorState>,
    s: Seq<Reading>,
    p: Seq<PendingEntry>,
    quiet: u64,
    now: u64,
    k: ConnectorKey,
)
    requires
        keys_unique(s),
        pending_keys_unique(p),
        base.contains_key(k),
        base[k] == ConnectorState::Connected,
        s.contains((k, ConnectorState::Disconnected)),
        quiet > 0,
    ensures
        forall|i: int|
            0 <= i < admit_reports(p, quiet, candidates_of(base, s), now).len()
                ==> (#[trigger] admit_reports(p, quiet, candidates_of(base, s), now)[i]).0 != k,
        not_due(pending_after(p, candidates_of(base, s), now), now, quiet).contains(
            PendingEntry { key: k, state: ConnectorState::Disconnected, since: now },
        ),
{
    let j = choose|j: int| 0 <= j < s.len() && s[j] == (k, ConnectorState::Disconnected);
    let c = Candidate { key: k, state: ConnectorState::Disconnected, kind: ChangeKind::Transition };
    assert(candidate_for(base, s[j]) == Some(c));
    lemma_candidate_present(base, s, j);
    lemma_candidates_of_key(base, s, j);
    let cs = candidates_of(base, s);
    assert forall|i: int| 0 <= i < cs.len() && (#[trigger] cs[i]).key == c.key implies cs[i] == c by {
        assert(cs.contains(cs[i]));
    }
    lemma_pending_own_key(p, cs, now, c);
    let pa = pending_after(p, cs, now);
    let ne = PendingEntry { key: k, state: ConnectorState::Disconnected, since: now };
    lemma_not_due_contains(pa, now, quiet, ne);
    let r = admit_reports(p, quiet, cs, now);
    let imm = immediate_reports(cs);
    let due = due_reports(pa, now, quiet);
    assert forall|i: int| 0 <= i < r.len() implies (#[trigger] r[i]).0 != k by {
        if i < imm.len() {
            lemma_immediate_source(cs, i);
            let d = choose|d: Candidate| cs.contains(d) && is_immediate(d) && imm[i] == candidate_reading(d);
            assert(r[i] == imm[i]);
        } else {
            lemma_due_source(pa, now, quiet, i - imm.len());
            let e = choose|e: PendingEntry| pa.contains(e) && is_due(e, now, quiet) && due[i - imm.len()] == entry_reading(e);
            assert(r[i] == due[i - imm.len()]);
        }
    }
}

/// A pending entry of a key that gets no candidate in a cycle at `now` (no
/// reconnect, no event at all, or only events of other connectors) is held
/// back while the quiet period has not run out since it was made, and is
/// reported, and leaves, once it has.
pub proof fn pending_entry_comes_due(p: Seq<PendingEntry>, quiet: u64, cs: Seq<Candidate>, now: u64, e: PendingEntry)
    requires
        pending_keys_unique(p),
        p.contains(e),
        forall|i: int| 0 <= i < cs.len() ==> (#[trigger] cs[i]).key != e.key,
    ensures
        now - e.since < quiet ==> {
            &&& forall|i: int|
                0 <= i < admit_reports(p, quiet, cs, now).len() ==> (#[trigger] admit_reports(p, quiet, cs, now)[i]).0
                    != e.key
            &&& not_due(pending_after(p, cs, now), now, quiet).contains(e)
        },
        now - e.since >= quiet ==> {
            &&& admit_reports(p, quiet, cs, now).contains((e.key, e.state))
            &&& forall|x: PendingEntry|
                x.key == e.key ==> !(#[trigger] not_due(pending_after(p, cs, now), now, quiet).contains(x))
        },
{
    let k = e.key;
    lemma_pending_other_keys(p, cs, now, k);
    crate::debounce::lemma_pending_after_unique(p, cs, now);
    let pa = pending_after(p, cs, now);
    let r = admit_reports(p, quiet, cs, now);
    let imm = immediate_reports(cs);
    let due = due_reports(pa, now, quiet);
    assert(pa.contains(e));
    assert forall|x: PendingEntry| x.key == k && pa.contains(x) implies x == e by {
        let a = choose|a: int| 0 <= a < pa.len() && pa[a] == x;
        let b = choose|b: int| 0 <= b < pa.len() && pa[b] == e;
        if a != b {
            assert(pa[a].key == pa[b].key);
        }
    }
    lemma_not_due_contains(pa, now, quiet, e);
    if now - e.since < quiet {
        assert forall|i: int| 0 <= i < r.len() implies (#[trigger] r[i]).0 != k by {
            if i < imm.len() {
                lemma_immediate_source(cs, i);
                let d = choose|d: Candidate| cs.contains(d) && is_immediate(d) && imm[i] == candidate_reading(d);
                assert(r[i] == imm[i]);
            } else {
                lemma_due_source(pa, now, quiet, i - imm.len());
                let x = choose|x: PendingEntry| pa.contains(x) && is_due(x, now, quiet) && due[i - imm.len()] == entry_reading(x);
                assert(r[i] == due[i - imm.len()]);
            }
        }
    } else {
        lemma_due_present(pa, now, quiet, e);
        let i = choose|i: int| 0 <= i < due.len() && due[i] == entry_reading(e);
        assert(r[imm.len() + i] == due[i]);
        assert forall|x: PendingEntry| x.key == k implies !(#[trigger] not_due(pa, now, quiet).contains(x)) by {
            lemma_not_due_contains(pa, now, quiet, x);
        }
    }
}

/// A reconnect absorbs a pending disconnect: where the baseline has `k`
/// disconnected (the disconnect was seen and is pending) and a snapshot with
/// unique keys shows it connected again, the cycle reports `k` connected,
/// reports no other state of `k`, and leaves nothing of `k` pending, so the
/// disconnect is never reported.
pub proof fn reconnect_absorbs_disconnect(
    base: Map<ConnectorKey, ConnectorState>,
    s: Seq<Reading>,
    p: Seq<PendingEntry>,
    quiet: u64,
    now: u64,
    k: ConnectorKey,
)
    requires
        keys_unique(s),
        base.contains_key(k),
        base[k] == ConnectorState::Disconnected,
        s.contains((k, ConnectorState::Connected)),
    ensures
        admit_reports(p, quiet, candidates_of(base, s), now).contains((k, ConnectorState::Connected)),
        forall|i: int|
            0 <= i < admit_reports(p, quiet, candidates_of(base, s), now).len()
                && (#[trigger] admit_reports(p, quiet, candidates_of(base, s), now)[i]).0 == k
                ==> admit_reports(p, quiet, candidates_of(base, s), now)[i].1 == ConnectorState::Connected,
        forall|x: PendingEntry|
            x.key == k ==> !(#[trigger] pending_after(p, candidates_of(base, s), now).contains(x)),
{
    connect_reported_at_once(base, s, p, quiet, now, k);
    let j = choose|j: int| 0 <= j < s.len() && s[j] == (k, ConnectorState::Connected);
    let c = Candidate { key: k, state: ConnectorState::Connected, kind: ChangeKind::Transition };
    assert(candidate_for(base, s[j]) == Some(c));
    lemma_candidate_present(base, s, j);
    lemma_candidates_of_key(base, s, j);
    let cs = candidates_of(base, s);
    assert forall|i: int| 0 <= i < cs.len() && (#[trigger] cs[i]).key == c.key implies cs[i] == c by {
        assert(cs.contains(cs[i]));
    }
    lemma_pending_own_key(p, cs, now, c);
    let pa = pending_after(p, cs, now);
    let r = admit_reports(p, quiet, cs, now);
    let imm = immediate_reports(cs);
    let due = due_reports(pa, now, quiet);
    assert forall|i: int| 0 <= i < r.len() && (#[trigger] r[i]).0 == k implies r[i].1 == ConnectorState::Connected by {
        if i < imm.len() {
            lemma_immediate_source(cs, i);
            let d = choose|d: Candidate| cs.contains(d) && is_immediate(d) && imm[i] == candidate_reading(d);
            assert(r[i] == imm[i]);
        } else {
            lemma_due_source(pa, now, quiet, i - imm.len());
            let e = choose|e: PendingEntry| pa.contains(e) && is_due(e, now, quiet) && due[i - imm.len()] == entry_reading(e);
            assert(r[i] == due[i - imm.len()]);
        }
    }
}

/// Connectors with the same id on two controllers whose paths hash apart
/// are never confused: their keys differ, a state vector with unique keys
/// gives each its own baseline state, and candidates of one leave the
/// pending entries of the other as they were. (Paths that hash alike are
/// the accepted risk of hashed controller identities.)
pub proof fn controllers_kept_apart(
    path_a: Seq<char>,
    path_b: Seq<char>,
    id: u32,
    state_a: ConnectorState,
    state_b: ConnectorState,
    s: Seq<Reading>,
    p: Seq<PendingEntry>,
    cs: Seq<Candidate>,
    now: u64,
)
    requires
        controller_hash(path_a) != controller_hash(path_b),
        keys_unique(s),
        s.contains((key_of(path_a, id), state_a)),
        s.contains((key_of(path_b, id), state_b)),
        forall|i: int| 0 <= i < cs.len() ==> (#[trigger] cs[i]).key == key_of(path_b, id),
    ensures
        key_of(path_a, id) != key_of(path_b, id),
        map_of(s).contains_key(key_of(path_a, id)) && map_of(s)[key_of(path_a, id)] == state_a,
        map_of(s).contains_key(key_of(path_b, id)) && map_of(s)[key_of(path_b, id)] == state_b,
        forall|x: PendingEntry|
            x.key == key_of(path_a, id) ==> (#[trigger] pending_after(p, cs, now).contains(x) <==> p.contains(x)),
{
    let ka = key_of(path_a, id);
    let kb = key_of(path_b, id);
    assert(ka.card_hash != kb.card_hash);
    lemma_unique_lookup(s, ka, state_a);
    lemma_unique_lookup(s, kb, state_b);
    lemma_pending_other_keys(p, cs, now, ka);
}

/// In a state vector with unique keys, a key's baseline state is that of its
/// one reading.
proof fn lemma_unique_lookup(s: Seq<Reading>, k: ConnectorKey, st: ConnectorState)
    requires
        keys_unique(s),
        s.contains((k, st)),
    ensures
        map_of(s).contains_key(k) && map_of(s)[k] == st,
{
    let j = choose|j: int| 0 <= j < s.len() && s[j] == (k, st);
    lemma_map_of_lookup(s, k);
    assert forall|l: int| j < l < s.len() implies s[l].0 != k by {}
}

/// Every pending entry holds the state that the baseline has for its key
/// (where the baseline has the key at all).
pub open spec fn pending_agrees(base: Map<ConnectorKey, ConnectorState>, p: Seq<PendingEntry>) -> bool {
    forall|e: PendingEntry| #[trigger] p.contains(e) && base.contains_key(e.key) ==> base[e.key] == e.state
}

/// A pending entry never goes stale: if the pending entries agree with the
/// baseline before a cycle that takes a snapshot with unique keys, they
/// agree with the new baseline after it. So an entry that comes due always
/// reports the latest observed state of its connector: a connector that was
/// seen disconnected, then connected, then disconnected again is reported
/// from its last disconnect only, and never while it is seen connected.
pub proof fn pending_stays_current(
    base: Map<ConnectorKey, ConnectorState>,
    p: Seq<PendingEntry>,
    s: Seq<Reading>,
    quiet: u64,
    now: u64,
)
    requires
        keys_unique(s),
        pending_agrees(base, p),
    ensures
        pending_agrees(map_of(s), not_due(pending_after(p, candidates_of(base, s), now), now, quiet)),
{
    let cs = candidates_of(base, s);
    let pa = pending_after(p, cs, now);
    let kept = not_due(pa, now, quiet);
    let nb = map_of(s);
    assert forall|x: PendingEntry| #[trigger] kept.contains(x) && nb.contains_key(x.key) implies nb[x.key] == x.state by {
        let k = x.key;
        lemma_not_due_contains(pa, now, quiet, x);
        lemma_map_of_lookup(s, k);
        let j = choose|j: int| 0 <= j < s.len() && (#[trigger] s[j]).0 == k;
        assert(s.contains(s[j]));
        lemma_unique_lookup(s, k, s[j].1);
        lemma_candidates_of_key(base, s, j);
        match candidate_for(base, s[j]) {
            Some(c) => {
                lemma_candidate_present(base, s, j);
                assert forall|i: int| 0 <= i < cs.len() && (#[trigger] cs[i]).key == c.key implies cs[i] == c by {
                    assert(cs.contains(cs[i]));
                }
                lemma_pending_own_key(p, cs, now, c);
                assert(c.key == k && c.state == s[j].1);
                assert(entry_left_by(c, now) == Some(x));
            },
            None => {
                assert forall|i: int| 0 <= i < cs.len() implies (#[trigger] cs[i]).key != k by {
                    assert(cs.contains(cs[i]));
                }
                lemma_pending_other_keys(p, cs, now, k);
                assert(p.contains(x));
                assert(base.contains_key(k) && base[k] == s[j].1);
            },
        }
    }
}

/// A cycle without a snapshot keeps the baseline and only removes pending
/// entries, so the pending entries keep agreeing with the baseline.
pub proof fn sweep_stays_current(base: Map<ConnectorKey, ConnectorState>, p: Seq<PendingEntry>, quiet: u64, now: u64)
    requires
        pending_agrees(base, p),
    ensures
        pending_agrees(base, not_due(pending_after(p, Seq::<Candidate>::empty(), now), now, quiet)),
{
    assert forall|x: PendingEntry| #[trigger] not_due(p, now, quiet).contains(x) && base.contains_key(x.key) implies base[x.key]
        == x.state by {
        lemma_not_due_contains(p, now, quiet, x);
    }
}

/// Each connector id occurs once in a controller's connector list.
pub open spec fn ids_unique(v: Seq<(u32, ConnectorState)>) -> bool {
    forall|a: int, b: int| 0 <= a < b < v.len() ==> v[a].0 != v[b].0
}

/// The controllers that answered have paths that hash apart, and each lists
/// every connector id once.
pub open spec fn readings_well_keyed(rs: Seq<ControllerReading>) -> bool {
    &&& forall|i: int, j: int|
        0 <= i < j < rs.len() && (#[trigger] rs[i]).connectors is Ok && (#[trigger] rs[j]).connectors is Ok
            ==> controller_hash(rs[i].path@) != controller_hash(rs[j].path@)
    &&& forall|i: int| 0 <= i < rs.len() && (#[trigger] rs[i]).connectors is Ok ==> ids_unique(rs[i].connectors->Ok_0@)
}

/// Every key of the state vector carries the path hash of a controller that
/// answered.
proof fn lemma_flatten_hash(rs: Seq<ControllerReading>, idx: int)
    requires
        0 <= idx < flatten_readings(rs).len(),
    ensures
        exists|i: int|
            0 <= i < rs.len() && (#[trigger] rs[i]).connectors is Ok && flatten_readings(rs)[idx].0.card_hash
                == controller_hash(rs[i].path@),
    decreases rs.len(),
{
    let q = rs.drop_last();
    let f = flatten_readings(q);
    if idx < f.len() {
        lemma_flatten_hash(q, idx);
        let i = choose|i: int|
            0 <= i < q.len() && (#[trigger] q[i]).connectors is Ok && f[idx].0.card_hash == controller_hash(q[i].path@);
        assert(rs[i] == q[i]);
    } else {
        let last = rs.last();
        assert(rs[rs.len() - 1] == last);
        match last.connectors {
            Ok(v) => {
                assert(readings_of(last.path@, v@)[idx - f.len()].0 == key_of(last.path@, v@[idx - f.len()].0));
            },
            Err(_) => {},
        }
    }
}

/// Keys are unique by construction: where the controllers that answered
/// have paths that hash apart and list each connector id once, the flat
/// state vector has no key twice.
pub proof fn snapshot_keys_unique(rs: Seq<ControllerReading>)
    requires
        readings_well_keyed(rs),
    ensures
        keys_unique(flatten_readings(rs)),
    decreases rs.len(),
{
    if rs.len() > 0 {
        let q = rs.drop_last();
        let last = rs.last();
        assert(rs[rs.len() - 1] == last);
        assert forall|i: int, j: int|
            0 <= i < j < q.len() && (#[trigger] q[i]).connectors is Ok && (#[trigger] q[j]).connectors is Ok
                implies controller_hash(q[i].path@) != controller_hash(q[j].path@) by {
            assert(q[i] == rs[i] && q[j] == rs[j]);
        }
        assert forall|i: int| 0 <= i < q.len() && (#[trigger] q[i]).connectors is Ok implies ids_unique(
            q[i].connectors->Ok_0@,
        ) by {
            assert(q[i] == rs[i]);
        }
        snapshot_keys_unique(q);
        let f = flatten_readings(q);
        let part = controller_part(last);
        let all = flatten_readings(rs);
        assert(all == f + part);
        assert forall|a: int, b: int| 0 <= a < b < all.len() implies all[a].0 != all[b].0 by {
            if b < f.len() {
                assert(all[a] == f[a] && all[b] == f[b]);
            } else {
                match last.connectors {
                    Ok(v) => {
                        let pb = b - f.len();
                        assert(all[b] == part[pb]);
                        assert(part[pb].0 == key_of(last.path@, v@[pb].0));
                        if a < f.len() {
                            lemma_flatten_hash(q, a);
                            let i = choose|i: int|
                                0 <= i < q.len() && (#[trigger] q[i]).connectors is Ok && f[a].0.card_hash
                                    == controller_hash(q[i].path@);
                            assert(q[i] == rs[i]);
                            assert(all[a] == f[a]);
                        } else {
                            let pa = a - f.len();
                            assert(all[a] == part[pa]);
                            assert(part[pa].0 == key_of(last.path@, v@[pa].0));
                            assert(ids_unique(v@));
                        }
                    },
                    Err(_) => {},
                }
            }
        }
    }
}

} // verus!
